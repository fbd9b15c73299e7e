use vstd::prelude::*;
use vstd::string::StringExecFns;

verus! {

/// An ordered sequence of path segments identifying a nesting scope in the
/// native type system. Equality is exact segment-sequence equality, and a
/// namespace forms one half of every type identity.
pub struct Namespace {
    pub segments: Vec<String>,
}

impl View for Namespace {
    type V = Seq<Seq<char>>;

    open spec fn view(&self) -> Seq<Seq<char>> {
        self.segments@.map_values(|s: String| s@)
    }
}

impl Namespace {
    /// The root scope, with no segments.
    pub fn root() -> (r: Namespace)
        ensures
            r@ == Seq::<Seq<char>>::empty(),
    {
        let r = Namespace { segments: Vec::new() };
        proof {
            assert(r@ =~= Seq::<Seq<char>>::empty());
        }
        r
    }

    /// A scope built from the given path segments, outermost first.
    pub fn from_segments(segments: Vec<String>) -> (r: Namespace)
        ensures
            r@ == segments@.map_values(|s: String| s@),
    {
        Namespace { segments }
    }

    /// A copy of this scope.
    pub fn clone_namespace(&self) -> (r: Namespace)
        ensures
            r@ == self@,
    {
        let mut segs: Vec<String> = Vec::new();
        let mut i: usize = 0;
        while i < self.segments.len()
            invariant
                i <= self.segments.len(),
                segs@.len() == i as nat,
                forall|k: int| 0 <= k < i ==> segs@[k] == self.segments@[k],
            decreases self.segments.len() - i,
        {
            let s = self.segments[i].clone();
            segs.push(s);
            i += 1;
        }
        proof {
            assert(segs@ =~= self.segments@);
        }
        Namespace { segments: segs }
    }

    /// Whether this scope and `other` name the same nesting scope.
    pub fn matches_namespace(&self, other: &Namespace) -> (r: bool)
        ensures
            r == (self@ == other@),
    {
        if self.segments.len() != other.segments.len() {
            proof {
                assert(self@.len() != other@.len());
            }
            return false;
        }
        let mut i: usize = 0;
        while i < self.segments.len()
            invariant
                i <= self.segments.len(),
                self.segments.len() == other.segments.len(),
                forall|k: int| 0 <= k < i ==> self.segments@[k]@ == other.segments@[k]@,
            decreases self.segments.len() - i,
        {
            if !self.segments[i].eq(&other.segments[i]) {
                proof {
                    assert(self@[i as int] != other@[i as int]);
                }
                return false;
            }
            i += 1;
        }
        proof {
            assert(self@ =~= other@);
        }
        true
    }
}

/// The mathematical value of a `TypeName`: a namespace path plus a bare name.
pub struct TypeNameV {
    pub ns: Seq<Seq<char>>,
    pub id: Seq<char>,
}

/// Canonical identity of a native-origin type: a namespace plus a bare name.
/// Two TypeNames are equal iff both the namespace and the bare name are equal;
/// this is the universal key for dependency edges and allow-list membership.
pub struct TypeName {
    pub ns: Namespace,
    pub id: String,
}

impl View for TypeName {
    type V = TypeNameV;

    open spec fn view(&self) -> TypeNameV {
        TypeNameV { ns: self.ns@, id: self.id@ }
    }
}

impl TypeName {
    /// Build the canonical name of `id` declared inside `ns`.
    pub fn new(ns: &Namespace, id: &str) -> (r: TypeName)
        ensures
            r@ == (TypeNameV { ns: ns@, id: id@ }),
    {
        TypeName { ns: ns.clone_namespace(), id: String::from_str(id) }
    }

    /// A copy of this name.
    pub fn clone_typename(&self) -> (r: TypeName)
        ensures
            r@ == self@,
    {
        TypeName { ns: self.ns.clone_namespace(), id: self.id.clone() }
    }

    /// Whether this name and `other` identify the same type.
    pub fn matches_typename(&self, other: &TypeName) -> (r: bool)
        ensures
            r == (self@ == other@),
    {
        self.ns.matches_namespace(&other.ns) && self.id.eq(&other.id)
    }
}

} // verus!
