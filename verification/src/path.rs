use vstd::prelude::*;

verus! {

/// A name that `Path::components` yields as an ordinary component: not
/// empty, without `/`, and neither `.` nor `..`.
pub open spec fn is_normal_name(c: Seq<u8>) -> bool {
    &&& c.len() > 0
    &&& !c.contains(47u8)
    &&& c != seq![46u8]
    &&& c != seq![46u8, 46u8]
}

/// Every component of `p` is an ordinary name.
pub open spec fn is_normal_path(p: Seq<Seq<u8>>) -> bool {
    forall|i: int| 0 <= i < p.len() ==> is_normal_name(#[trigger] p[i])
}

/// An absolute path, held as the byte strings of its components below `/`.
/// The root directory itself has no components. Every component is an
/// ordinary name, so the path is the one `Path::components` reads from
/// `/c1/c2/...`: its last component is its file name, and dropping it gives
/// its parent.
#[derive(Debug, PartialEq, Eq)]
pub struct FsPath {
    pub(crate) components: Vec<Vec<u8>>,
}

/// The byte strings of a sequence of components.
pub open spec fn component_views(cs: Seq<Vec<u8>>) -> Seq<Seq<u8>> {
    cs.map_values(|c: Vec<u8>| c@)
}

impl View for FsPath {
    type V = Seq<Seq<u8>>;

    closed spec fn view(&self) -> Seq<Seq<u8>> {
        component_views(self.components@)
    }
}

impl FsPath {
    /// The invariant of every path: its components are ordinary names.
    #[verifier::type_invariant]
    pub open spec fn inv(self) -> bool {
        is_normal_path(self@)
    }
}

/// Copies a byte string.
pub fn copy_bytes(b: &Vec<u8>) -> (r: Vec<u8>)
    ensures
        r@ == b@,
{
    let r = b.clone();
    assert(r@ =~= b@);
    r
}

/// Copies the first `n` components.
fn copy_components(cs: &Vec<Vec<u8>>, n: usize) -> (r: Vec<Vec<u8>>)
    requires
        n <= cs@.len(),
    ensures
        component_views(r@) == component_views(cs@).subrange(0, n as int),
{
    let mut comps: Vec<Vec<u8>> = Vec::new();
    for i in 0..n
        invariant
            n <= cs@.len(),
            comps@.len() == i,
            forall|j: int| 0 <= j < i ==> #[trigger] comps@[j]@ == cs@[j]@,
    {
        comps.push(copy_bytes(&cs[i]));
    }
    assert(component_views(comps@) =~= component_views(cs@).subrange(0, n as int));
    comps
}

impl Clone for FsPath {
    fn clone(&self) -> (r: Self)
        ensures
            r@ == self@,
    {
        proof {
            use_type_invariant(self);
        }
        let comps = copy_components(&self.components, self.components.len());
        assert(component_views(self.components@).subrange(0, self@.len() as int) =~= self@);
        FsPath { components: comps }
    }
}

/// `prefix` consists of the first components of `path`: the component-wise
/// prefix test of `Path::starts_with`.
pub open spec fn is_path_prefix(prefix: Seq<Seq<u8>>, path: Seq<Seq<u8>>) -> bool {
    prefix.len() <= path.len() && path.subrange(0, prefix.len() as int) == prefix
}

/// The bytes of a path below the root: `/c1/c2/...`, empty for the root.
pub open spec fn joined_bytes(p: Seq<Seq<u8>>) -> Seq<u8>
    decreases p.len(),
{
    if p.len() == 0 {
        Seq::empty()
    } else {
        joined_bytes(p.drop_last()) + seq![47u8] + p.last()
    }
}

/// The bytes `to_string_lossy` reads from a path: `/` for the root,
/// `/c1/c2/...` otherwise.
pub open spec fn display_bytes(p: Seq<Seq<u8>>) -> Seq<u8> {
    if p.len() == 0 {
        seq![47u8]
    } else {
        joined_bytes(p)
    }
}

/// The displayed bytes grow by one `/` and the new name when a component is
/// added below a path: `/` for the root, `/c` for one component, and
/// `display(p) ++ "/" ++ c` below any other path; every component is shown,
/// in order.
pub proof fn lemma_display_bytes_push(p: Seq<Seq<u8>>, c: Seq<u8>)
    ensures
        display_bytes(Seq::empty()) == seq![47u8],
        p.len() == 0 ==> display_bytes(p.push(c)) == seq![47u8] + c,
        p.len() > 0 ==> display_bytes(p.push(c)) == display_bytes(p) + seq![47u8] + c,
        display_bytes(p.push(c)).len() == (if p.len() == 0 { 0 } else { display_bytes(p).len() }) + 1 + c.len(),
{
    assert(p.push(c).drop_last() =~= p);
    if p.len() == 0 {
        assert(joined_bytes(p) =~= Seq::<u8>::empty());
        assert(Seq::<u8>::empty() + seq![47u8] + c =~= seq![47u8] + c);
    }
}

/// Every path starts with itself.
pub proof fn lemma_prefix_reflexive(p: Seq<Seq<u8>>)
    ensures
        is_path_prefix(p, p),
{
    assert(p.subrange(0, p.len() as int) =~= p);
}

/// A path starts with its parent, and the parent is one component shorter.
pub proof fn lemma_parent_is_prefix(p: Seq<Seq<u8>>)
    requires
        p.len() > 0,
    ensures
        is_path_prefix(p.drop_last(), p),
        p.drop_last().len() + 1 == p.len(),
{
    assert(p.subrange(0, p.len() - 1) =~= p.drop_last());
}

/// Starting with is transitive.
pub proof fn lemma_prefix_transitive(a: Seq<Seq<u8>>, b: Seq<Seq<u8>>, c: Seq<Seq<u8>>)
    requires
        is_path_prefix(a, b),
        is_path_prefix(b, c),
    ensures
        is_path_prefix(a, c),
{
    assert(c.subrange(0, a.len() as int) =~= c.subrange(0, b.len() as int).subrange(0, a.len() as int));
}

/// Compares two byte strings.
pub fn bytes_equal(a: &[u8], b: &[u8]) -> (r: bool)
    ensures
        r == (a@ == b@),
{
    if a.len() != b.len() {
        return false;
    }
    let mut i: usize = 0;
    while i < a.len()
        invariant
            a@.len() == b@.len(),
            i <= a@.len(),
            a@.subrange(0, i as int) == b@.subrange(0, i as int),
        decreases a@.len() - i,
    {
        if a[i] != b[i] {
            assert(a@[i as int] != b@[i as int]);
            return false;
        }
        assert(a@.subrange(0, i + 1) =~= a@.subrange(0, i as int).push(a@[i as int]));
        assert(b@.subrange(0, i + 1) =~= b@.subrange(0, i as int).push(b@[i as int]));
        i = i + 1;
    }
    assert(a@ =~= a@.subrange(0, a@.len() as int));
    assert(b@ =~= b@.subrange(0, b@.len() as int));
    true
}

/// Whether `name` is an ordinary name.
pub fn check_name(name: &[u8]) -> (r: bool)
    ensures
        r == is_normal_name(name@),
{
    if name.len() == 0 {
        return false;
    }
    if name.len() == 1 && name[0] == 46u8 {
        assert(name@ =~= seq![46u8]);
        return false;
    }
    if name.len() == 2 && name[0] == 46u8 && name[1] == 46u8 {
        assert(name@ =~= seq![46u8, 46u8]);
        return false;
    }
    assert(name@ != seq![46u8]) by {
        if name@ == seq![46u8] {
            assert(name@[0] == 46u8);
        }
    }
    assert(name@ != seq![46u8, 46u8]) by {
        if name@ == seq![46u8, 46u8] {
            assert(name@[0] == 46u8 && name@[1] == 46u8);
        }
    }
    let mut i: usize = 0;
    while i < name.len()
        invariant
            i <= name@.len(),
            forall|j: int| 0 <= j < i ==> name@[j] != 47u8,
        decreases name@.len() - i,
    {
        if name[i] == 47u8 {
            assert(name@.contains(47u8));
            return false;
        }
        i = i + 1;
    }
    assert(!name@.contains(47u8));
    true
}

impl FsPath {
    /// The root directory `/`.
    pub fn root() -> (r: FsPath)
        ensures
            r@ == Seq::<Seq<u8>>::empty(),
    {
        let r = FsPath { components: Vec::new() };
        assert(r@ =~= Seq::<Seq<u8>>::empty());
        r
    }

    /// The path below this one named by `name` (`Path::join`), when `name`
    /// is an ordinary name; `None` for an empty name, one with `/`, `.` or
    /// `..`.
    pub fn join(&self, name: &[u8]) -> (r: Option<FsPath>)
        ensures
            r is Some <==> is_normal_name(name@),
            r matches Some(q) ==> q@ == self@.push(name@),
    {
        proof {
            use_type_invariant(self);
        }
        if !check_name(name) {
            return None;
        }
        let mut comps = copy_components(&self.components, self.components.len());
        assert(component_views(self.components@).subrange(0, self@.len() as int) =~= self@);
        let mut c: Vec<u8> = Vec::new();
        for i in 0..name.len()
            invariant
                c@ == name@.subrange(0, i as int),
        {
            c.push(name[i]);
            assert(c@ =~= name@.subrange(0, i + 1));
        }
        assert(c@ =~= name@);
        let ghost before = comps@;
        comps.push(c);
        assert(comps@ =~= before.push(c));
        assert(component_views(comps@) =~= self@.push(name@));
        Some(FsPath { components: comps })
    }

    /// The path with the given components below `/`, when each is an
    /// ordinary name; `None` otherwise.
    pub fn from_components(components: Vec<Vec<u8>>) -> (r: Option<FsPath>)
        ensures
            r is Some <==> is_normal_path(component_views(components@)),
            r matches Some(q) ==> q@ == component_views(components@),
    {
        let mut i: usize = 0;
        while i < components.len()
            invariant
                i <= components@.len(),
                forall|j: int| 0 <= j < i ==> is_normal_name(#[trigger] component_views(components@)[j]),
            decreases components@.len() - i,
        {
            if !check_name(components[i].as_slice()) {
                assert(!is_normal_name(component_views(components@)[i as int]));
                return None;
            }
            i = i + 1;
        }
        Some(FsPath { components })
    }

    /// The components of the path, as byte strings.
    pub fn components(&self) -> (r: &Vec<Vec<u8>>)
        ensures
            component_views(r@) == self@,
    {
        &self.components
    }

    /// Whether two paths name the same place (`Path == Path`).
    pub fn same_as(&self, other: &FsPath) -> (r: bool)
        ensures
            r == (self@ == other@),
    {
        if self.components.len() != other.components.len() {
            return false;
        }
        let mut i: usize = 0;
        while i < self.components.len()
            invariant
                self@.len() == other@.len(),
                i <= self@.len(),
                forall|j: int| 0 <= j < i ==> self@[j] == other@[j],
            decreases self@.len() - i,
        {
            if !bytes_equal(self.components[i].as_slice(), other.components[i].as_slice()) {
                assert(self@[i as int] != other@[i as int]);
                return false;
            }
            i = i + 1;
        }
        assert(self@ =~= other@);
        true
    }

    /// Whether `base` is a component-wise prefix of this path
    /// (`Path::starts_with`).
    pub fn starts_with(&self, base: &FsPath) -> (r: bool)
        ensures
            r == is_path_prefix(base@, self@),
    {
        if base.components.len() > self.components.len() {
            return false;
        }
        let mut i: usize = 0;
        while i < base.components.len()
            invariant
                base@.len() <= self@.len(),
                i <= base@.len(),
                forall|j: int| 0 <= j < i ==> self@[j] == base@[j],
            decreases base@.len() - i,
        {
            if !bytes_equal(self.components[i].as_slice(), base.components[i].as_slice()) {
                assert(self@.subrange(0, base@.len() as int)[i as int] != base@[i as int]);
                return false;
            }
            i = i + 1;
        }
        assert(self@.subrange(0, base@.len() as int) =~= base@);
        true
    }

    /// Whether this is the root directory.
    pub fn is_root(&self) -> (r: bool)
        ensures
            r == (self@.len() == 0),
    {
        self.components.len() == 0
    }

    /// The directory that holds this path; the root has none
    /// (`Path::parent`).
    pub fn parent(&self) -> (r: Option<FsPath>)
        ensures
            r is None <==> self@.len() == 0,
            r matches Some(p) ==> p@ == self@.drop_last(),
    {
        if self.components.len() == 0 {
            return None;
        }
        proof {
            use_type_invariant(self);
        }
        let n = self.components.len();
        let comps = copy_components(&self.components, n - 1);
        assert(component_views(self.components@).subrange(0, n - 1) =~= self@.drop_last());
        let p = FsPath { components: comps };
        Some(p)
    }

    /// This path and every directory above it, nearest first, ending with
    /// the root (`Path::ancestors`).
    pub fn ancestors(&self) -> (r: Vec<FsPath>)
        ensures
            r@.len() == self@.len() + 1,
            forall|i: int|
                0 <= i < r@.len() ==> #[trigger] r@[i]@ == self@.subrange(
                    0,
                    self@.len() - i,
                ),
    {
        let mut r: Vec<FsPath> = Vec::new();
        let mut cur = self.clone();
        let n = self.components.len();
        let mut k: usize = 0;
        assert(self@.subrange(0, n as int) =~= self@);
        while k < n
            invariant
                k <= n,
                n == self@.len(),
                r@.len() == k,
                cur@ == self@.subrange(0, n - k),
                forall|i: int| 0 <= i < k ==> #[trigger] r@[i]@ == self@.subrange(0, n - i),
            decreases n - k,
        {
            let next = cur.parent();
            r.push(cur);
            match next {
                Some(p) => {
                    assert(p@ =~= self@.subrange(0, n - k - 1));
                    cur = p;
                },
                None => {
                    cur = FsPath::root();
                },
            }
            k = k + 1;
        }
        assert(cur@ =~= self@.subrange(0, 0));
        r.push(cur);
        r
    }

    /// The bytes of the whole path, `/` for the root.
    pub fn display_bytes(&self) -> (r: Vec<u8>)
        ensures
            r@ == display_bytes(self@),
    {
        let mut r: Vec<u8> = Vec::new();
        if self.components.len() == 0 {
            r.push(47u8);
            assert(r@ =~= seq![47u8]);
            return r;
        }
        let mut i: usize = 0;
        while i < self.components.len()
            invariant
                i <= self@.len(),
                r@ == joined_bytes(self@.subrange(0, i as int)),
            decreases self@.len() - i,
        {
            r.push(47u8);
            let c = &self.components[i];
            let ghost before = r@;
            for j in 0..c.len()
                invariant
                    r@ == before + c@.subrange(0, j as int),
            {
                r.push(c[j]);
                assert(r@ =~= before + c@.subrange(0, j + 1));
            }
            assert(self@.subrange(0, i + 1).drop_last() =~= self@.subrange(0, i as int));
            assert(r@ =~= joined_bytes(self@.subrange(0, i + 1)));
            i = i + 1;
        }
        assert(self@.subrange(0, self@.len() as int) =~= self@);
        r
    }
}

} // verus!
