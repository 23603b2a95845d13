//! Drawing relations: telling one edge from another, so a dependency
//! declared two ways (a clean modid and the Forge `modid@[range]` form, or one
//! row per source) is drawn once, and naming the selectors that reach a mod.
use vstd::prelude::*;
use crate::text::owned;

verus! {

/// What tells one edge from another. On a mod's page: the direction (0 out
/// of the mod, 1 into it), the mod at the other end when it resolves, the name
/// shown for that end, and the relation kind. In a slice of the graph: the mod
/// the edge leaves, the mod it reaches when that resolves within the slice,
/// the raw target when it does not (empty otherwise), and the kind.
pub struct EdgeKey {
    pub side: i64,
    pub other: Option<i64>,
    pub name: String,
    pub kind: String,
}

impl View for EdgeKey {
    type V = (i64, Option<i64>, Seq<char>, Seq<char>);

    open spec fn view(&self) -> (i64, Option<i64>, Seq<char>, Seq<char>) {
        (self.side, self.other, self.name@, self.kind@)
    }
}

/// The key of an edge on a mod's page.
pub fn mod_edge_key(outgoing: bool, other: Option<i64>, name: &str, kind: &str) -> (k: EdgeKey)
    ensures
        k@ == (if outgoing { 0i64 } else { 1i64 }, other, name@, kind@),
{
    EdgeKey { side: if outgoing { 0 } else { 1 }, other, name: owned(name), kind: owned(kind) }
}

/// The key of an edge in a slice: a resolved edge is keyed by its endpoints
/// and kind, so the same dependency declared two ways collapses; an
/// unresolved one keeps its raw target, so two genuinely different missing
/// dependencies stay apart.
pub fn slice_edge_key(from: i64, to: Option<i64>, kind: &str, target: &str) -> (k: EdgeKey)
    ensures
        k@ == (from, to, if to is Some { Seq::<char>::empty() } else { target@ }, kind@),
{
    let name = match to {
        Some(_) => String::new(),
        None => owned(target),
    };
    EdgeKey { side: from, other: to, name, kind: owned(kind) }
}

/// The edges already drawn, each by its key.
pub struct SeenEdges {
    keys: Vec<EdgeKey>,
}

impl View for SeenEdges {
    type V = Set<(i64, Option<i64>, Seq<char>, Seq<char>)>;

    closed spec fn view(&self) -> Set<(i64, Option<i64>, Seq<char>, Seq<char>)> {
        Set::new(|k: (i64, Option<i64>, Seq<char>, Seq<char>)| exists|i: int| 0 <= i < self.keys@.len() && #[trigger] self.keys@[i]@ == k)
    }
}

fn same_key(a: &EdgeKey, b: &EdgeKey) -> (r: bool)
    ensures
        r == (a@ == b@),
{
    let other_same = match (a.other, b.other) {
        (Some(x), Some(y)) => x == y,
        (None, None) => true,
        _ => false,
    };
    a.side == b.side && other_same && a.name == b.name && a.kind == b.kind
}

impl SeenEdges {
    /// Nothing drawn yet.
    pub fn new() -> (s: Self)
        ensures
            s@ == Set::<(i64, Option<i64>, Seq<char>, Seq<char>)>::empty(),
    {
        let s = SeenEdges { keys: Vec::new() };
        proof {
            assert(s@ =~= Set::<(i64, Option<i64>, Seq<char>, Seq<char>)>::empty());
        }
        s
    }

    /// Record an edge: `true` the first time its key is seen, when it is to
    /// be drawn, and `false` for a repeat, which is not.
    pub fn first_sight(&mut self, key: EdgeKey) -> (fresh: bool)
        ensures
            fresh == !old(self)@.contains(key@),
            final(self)@ == old(self)@.insert(key@),
    {
        let mut i: usize = 0;
        while i < self.keys.len()
            invariant
                i <= self.keys@.len(),
                forall|m: int| 0 <= m < i ==> (#[trigger] self.keys@[m])@ != key@,
            decreases self.keys@.len() - i,
        {
            if same_key(&self.keys[i], &key) {
                proof {
                    assert(old(self)@.contains(key@));
                    assert(old(self)@.insert(key@) =~= old(self)@);
                }
                return false;
            }
            i += 1;
        }
        let ghost before = self.keys@;
        let ghost kv = key@;
        self.keys.push(key);
        proof {
            assert(!old(self)@.contains(kv));
            assert(self.keys@[before.len() as int]@ == kv);
            assert forall|k: (i64, Option<i64>, Seq<char>, Seq<char>)| self@.contains(k) <==> old(self)@.insert(kv).contains(k) by {
                if self@.contains(k) {
                    let m = choose|m: int| 0 <= m < self.keys@.len() && #[trigger] self.keys@[m]@ == k;
                    if m < before.len() {
                        assert(before[m]@ == k);
                    }
                }
                if old(self)@.contains(k) {
                    let m = choose|m: int| 0 <= m < before.len() && #[trigger] before[m]@ == k;
                    assert(self.keys@[m]@ == k);
                }
            }
            assert(self@ =~= old(self)@.insert(kv));
        }
        true
    }
}

/// The selectors a relation can reach a mod by: each of its `modid` aliases
/// verbatim, then its Modrinth project as `modrinth:<id>` when it has one.
pub fn incoming_selectors(modids: Vec<String>, modrinth: Option<&str>) -> (r: Vec<String>)
    ensures
        r@.len() == modids@.len() + (if modrinth is Some { 1int } else { 0int }),
        forall|i: int| 0 <= i < modids@.len() ==> #[trigger] r@[i]@ == modids@[i]@,
        modrinth matches Some(pid) ==> r@[modids@.len() as int]@ == "modrinth:"@ + pid@,
{
    let mut r = modids;
    if let Some(pid) = modrinth {
        let mut s = owned("modrinth:");
        s.push_str(pid);
        r.push(s);
    }
    r
}

} // verus!
