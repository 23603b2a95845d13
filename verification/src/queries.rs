//! What the registry's reads compute once the rows are out of the database:
//! the order Minecraft versions are listed in, the `LIKE` escaping and
//! patterns a search gets, the name a mod is shown by, the artifact a slice
//! picks, one jar's readout, a mod's facets, the worlds of the graph, and
//! which requested ids a name lookup still has to ask about.
use vstd::prelude::*;
use crate::number::{digits_i64, is_digit};
use crate::order::{lemma_lex_asymmetric, lemma_lex_irreflexive, lemma_lex_total, lemma_lex_transitive, lex_less, lex_lt};
use crate::text::{chars_of, lemma_split_nonempty, split_chars, split_spec, string_of, texts, views};

verus! {

broadcast use vstd::seq_lib::to_multiset_insert, vstd::seq_lib::to_multiset_build;

// ── Minecraft versions ──────────────────────────────────────────────────────

/// The leading ASCII digits of a text (`take_while(is_ascii_digit)`).
pub open spec fn digit_prefix(s: Seq<char>) -> Seq<char>
    decreases s.len(),
{
    if s.len() > 0 && is_digit(s[0]) {
        seq![s[0]] + digit_prefix(s.drop_first())
    } else {
        Seq::empty()
    }
}

/// One dot-separated piece of a version as a number: its leading digits
/// read as an `i64`, or -1 when there are none or they do not fit.
pub open spec fn segment_key(seg: Seq<char>) -> i64 {
    match digits_i64(digit_prefix(seg)) {
        Some(n) => n as i64,
        None => -1i64,
    }
}

/// A version's sort key: each dot-separated piece as a number.
pub open spec fn mc_key(v: Seq<char>) -> Seq<i64> {
    split_spec(v, '.').map_values(|seg: Seq<char>| segment_key(seg))
}

fn digit_prefix_chars(v: &[char]) -> (r: Vec<char>)
    ensures
        r@ == digit_prefix(v@),
{
    let mut r: Vec<char> = Vec::new();
    let mut i: usize = 0;
    proof {
        assert(v@.skip(0) =~= v@);
    }
    while i < v.len() && '0' <= v[i] && v[i] <= '9'
        invariant
            i <= v.len(),
            digit_prefix(v@) == r@ + digit_prefix(v@.skip(i as int)),
        decreases v.len() - i,
    {
        proof {
            let t = v@.skip(i as int);
            assert(t[0] == v@[i as int]);
            assert(t.drop_first() =~= v@.skip(i + 1));
            assert(r@ + (seq![v@[i as int]] + digit_prefix(v@.skip(i + 1))) =~= r@.push(
                v@[i as int],
            ) + digit_prefix(v@.skip(i + 1)));
        }
        r.push(v[i]);
        i += 1;
    }
    proof {
        assert(digit_prefix(v@.skip(i as int)) =~= Seq::<char>::empty());
        assert(r@ + Seq::<char>::empty() =~= r@);
    }
    r
}

fn segment_key_of(seg: &[char]) -> (k: i64)
    ensures
        k == segment_key(seg@),
{
    let d = digit_prefix_chars(seg);
    match crate::number::parse_digits_i64(&d) {
        Some(n) => n,
        None => -1,
    }
}

/// Order Minecraft versions numerically -- 1.7.10 sorts below 1.10.2, not
/// above it the way a lexical compare would. Splits on '.', reading the
/// leading digits of each segment; a segment with none reads as -1.
pub fn mc_version_key(v: &str) -> (k: Vec<i64>)
    ensures
        k@ == mc_key(v@),
{
    let c = chars_of(v);
    let segs = split_chars(&c, '.');
    let mut k: Vec<i64> = Vec::new();
    let mut i: usize = 0;
    while i < segs.len()
        invariant
            i <= segs.len(),
            views(segs@) == split_spec(v@, '.'),
            k@ == views(segs@).take(i as int).map_values(|seg: Seq<char>| segment_key(seg)),
        decreases segs.len() - i,
    {
        k.push(segment_key_of(&segs[i]));
        proof {
            assert(views(segs@)[i as int] == segs@[i as int]@);
            assert(views(segs@).take(i + 1).map_values(|seg: Seq<char>| segment_key(seg))
                =~= views(segs@).take(i as int).map_values(|seg: Seq<char>| segment_key(seg)).push(
                segment_key(segs@[i as int]@),
            ));
        }
        i += 1;
    }
    proof {
        assert(views(segs@).take(segs.len() as int) =~= views(segs@));
    }
    k
}

/// Sort keys compared element by element, a proper prefix first (`Vec`'s
/// `Ord`).
pub open spec fn key_lt(a: Seq<i64>, b: Seq<i64>) -> bool
    decreases a.len(),
{
    if a.len() == 0 {
        b.len() > 0
    } else if b.len() == 0 {
        false
    } else if a[0] < b[0] {
        true
    } else if a[0] > b[0] {
        false
    } else {
        key_lt(a.drop_first(), b.drop_first())
    }
}

proof fn lemma_key_asymmetric(a: Seq<i64>, b: Seq<i64>)
    ensures
        key_lt(a, b) ==> !key_lt(b, a),
        !key_lt(a, a),
    decreases a.len(),
{
    if a.len() > 0 && b.len() > 0 && a[0] == b[0] {
        lemma_key_asymmetric(a.drop_first(), b.drop_first());
    }
    if a.len() > 0 {
        lemma_key_asymmetric(a.drop_first(), a.drop_first());
    }
}

proof fn lemma_key_transitive(a: Seq<i64>, b: Seq<i64>, c: Seq<i64>)
    requires
        key_lt(a, b),
        key_lt(b, c),
    ensures
        key_lt(a, c),
    decreases a.len(),
{
    if a.len() > 0 && b.len() > 0 && c.len() > 0 && a[0] == b[0] && b[0] == c[0] {
        lemma_key_transitive(a.drop_first(), b.drop_first(), c.drop_first());
    }
}

proof fn lemma_key_total(a: Seq<i64>, b: Seq<i64>)
    ensures
        a == b || key_lt(a, b) || key_lt(b, a),
    decreases a.len(),
{
    if a.len() > 0 && b.len() > 0 {
        if a[0] == b[0] {
            lemma_key_total(a.drop_first(), b.drop_first());
            if a.drop_first() == b.drop_first() {
                assert(a =~= seq![a[0]] + a.drop_first());
                assert(b =~= seq![b[0]] + b.drop_first());
            }
        }
    } else if a.len() == 0 && b.len() == 0 {
        assert(a =~= b);
    }
}

/// The listing order of keyed texts: by key, ties broken by the text itself.
pub open spec fn keyed_lt(ka: Seq<i64>, a: Seq<char>, kb: Seq<i64>, b: Seq<char>) -> bool {
    key_lt(ka, kb) || (ka == kb && lex_lt(a, b))
}

/// The order Minecraft versions are listed in: numerically by piece, ties
/// broken on the raw text so the order is deterministic.
pub open spec fn mc_lt(a: Seq<char>, b: Seq<char>) -> bool {
    keyed_lt(mc_key(a), a, mc_key(b), b)
}

proof fn lemma_keyed_order(ka: Seq<i64>, a: Seq<char>, kb: Seq<i64>, b: Seq<char>, kc: Seq<i64>, c: Seq<char>)
    ensures
        !keyed_lt(ka, a, ka, a),
        keyed_lt(ka, a, kb, b) ==> !keyed_lt(kb, b, ka, a),
        keyed_lt(ka, a, kb, b) && keyed_lt(kb, b, kc, c) ==> keyed_lt(ka, a, kc, c),
        (ka == kb && a == b) || keyed_lt(ka, a, kb, b) || keyed_lt(kb, b, ka, a),
{
    lemma_key_asymmetric(ka, kb);
    lemma_key_asymmetric(kb, ka);
    lemma_lex_irreflexive(a);
    lemma_lex_asymmetric(a, b);
    lemma_key_total(ka, kb);
    lemma_lex_total(a, b);
    if keyed_lt(ka, a, kb, b) && keyed_lt(kb, b, kc, c) {
        if key_lt(ka, kb) && key_lt(kb, kc) {
            lemma_key_transitive(ka, kb, kc);
        }
        if ka == kb && kb == kc {
            lemma_lex_transitive(a, b, c);
        }
    }
}

/// Keyed texts in listing order: no text sorts strictly before one ahead of
/// it.
pub open spec fn keyed_sorted(k: Seq<Seq<i64>>, s: Seq<Seq<char>>) -> bool {
    forall|i: int, j: int|
        #![trigger s[i], s[j]]
        0 <= i < j < s.len() ==> !keyed_lt(k[j], s[j], k[i], s[i])
}

fn keys_less(a: &[i64], b: &[i64]) -> (r: bool)
    ensures
        r == key_lt(a@, b@),
{
    let mut i: usize = 0;
    proof {
        assert(a@.skip(0) =~= a@);
        assert(b@.skip(0) =~= b@);
    }
    while i < a.len() && i < b.len() && a[i] == b[i]
        invariant
            i <= a.len(),
            i <= b.len(),
            key_lt(a@, b@) == key_lt(a@.skip(i as int), b@.skip(i as int)),
        decreases a.len() - i,
    {
        proof {
            assert(a@.skip(i as int).drop_first() =~= a@.skip(i + 1));
            assert(b@.skip(i as int).drop_first() =~= b@.skip(i + 1));
        }
        i += 1;
    }
    if i == a.len() {
        i < b.len()
    } else if i == b.len() {
        false
    } else {
        proof {
            assert(a@.skip(i as int)[0] == a@[i as int]);
            assert(b@.skip(i as int)[0] == b@[i as int]);
        }
        a[i] < b[i]
    }
}

fn keys_equal(a: &[i64], b: &[i64]) -> (r: bool)
    ensures
        r == (a@ == b@),
{
    if a.len() != b.len() {
        return false;
    }
    let mut i: usize = 0;
    while i < a.len()
        invariant
            i <= a.len() == b.len(),
            forall|m: int| 0 <= m < i ==> a@[m] == b@[m],
        decreases a.len() - i,
    {
        if a[i] != b[i] {
            return false;
        }
        i += 1;
    }
    proof {
        assert(a@ =~= b@);
    }
    true
}

/// A text with its sort key and its characters, ready to be compared.
struct Keyed {
    key: Vec<i64>,
    chars: Vec<char>,
    text: String,
}

spec fn keyed_ok(x: Keyed) -> bool {
    x.chars@ == x.text@
}

fn keyed_less(a: &Keyed, b: &Keyed) -> (r: bool)
    requires
        keyed_ok(*a),
        keyed_ok(*b),
    ensures
        r == keyed_lt(a.key@, a.text@, b.key@, b.text@),
{
    keys_less(&a.key, &b.key) || (keys_equal(&a.key, &b.key) && lex_less(&a.chars, &b.chars))
}

spec fn item_keys(v: Seq<Keyed>) -> Seq<Seq<i64>> {
    v.map_values(|x: Keyed| x.key@)
}

spec fn item_pairs(v: Seq<Keyed>) -> Seq<(Seq<i64>, Seq<char>)> {
    v.map_values(|x: Keyed| (x.key@, x.text@))
}

spec fn item_texts(v: Seq<Keyed>) -> Seq<Seq<char>> {
    v.map_values(|x: Keyed| x.text@)
}

/// Sort keyed texts into listing order: a stable insertion sort. Keeps
/// every text, adds none, and leaves them in listing order.
fn sort_keyed(items: Vec<Keyed>) -> (r: Vec<Keyed>)
    requires
        forall|i: int| 0 <= i < items@.len() ==> keyed_ok(#[trigger] items@[i]),
    ensures
        forall|i: int| 0 <= i < r@.len() ==> keyed_ok(#[trigger] r@[i]),
        r@.len() == items@.len(),
        item_texts(r@).to_multiset() == item_texts(items@).to_multiset(),
        item_pairs(r@).to_multiset() == item_pairs(items@).to_multiset(),
        keyed_sorted(item_keys(r@), item_texts(r@)),
{
    let mut out: Vec<Keyed> = Vec::new();
    let mut rest = items;
    let ghost orig = rest@;
    // take the items from the back so each move is a `pop`
    let mut taken: Vec<Keyed> = Vec::new();
    while rest.len() > 0
        invariant
            rest@.len() + taken@.len() == orig.len(),
            orig == items@,
            forall|i: int| 0 <= i < rest@.len() ==> rest@[i] == orig[i],
            forall|i: int|
                0 <= i < taken@.len() ==> taken@[i] == orig[orig.len() - 1 - i],
        decreases rest@.len(),
    {
        let x = rest.pop().unwrap();
        taken.push(x);
    }
    proof {
        assert(rest@.len() == 0);
    }
    // insert them back in their original order
    let mut k: usize = taken.len();
    let ghost mut consumed: Seq<Keyed> = Seq::empty();
    while k > 0
        invariant
            k == taken@.len(),
            k <= orig.len(),
            orig == items@,
            forall|i: int| 0 <= i < taken@.len() ==> taken@[i] == orig[orig.len() - 1 - i],
            forall|i: int| 0 <= i < orig.len() ==> keyed_ok(#[trigger] orig[i]),
            consumed == orig.take(orig.len() - k),
            forall|i: int| 0 <= i < out@.len() ==> keyed_ok(#[trigger] out@[i]),
            out@.len() == consumed.len(),
            item_texts(out@).to_multiset() == item_texts(consumed).to_multiset(),
            item_pairs(out@).to_multiset() == item_pairs(consumed).to_multiset(),
            keyed_sorted(item_keys(out@), item_texts(out@)),
        decreases k,
    {
        let x = taken.pop().unwrap();
        k -= 1;
        proof {
            assert(x == orig[orig.len() - 1 - k]);
        }
        let mut p: usize = 0;
        while p < out.len() && !keyed_less(&x, &out[p])
            invariant
                p <= out@.len(),
                keyed_ok(x),
                forall|i: int| 0 <= i < out@.len() ==> keyed_ok(#[trigger] out@[i]),
                forall|m: int|
                    0 <= m < p ==> !keyed_lt(x.key@, x.text@, #[trigger] out@[m].key@, out@[m].text@),
            decreases out@.len() - p,
        {
            p += 1;
        }
        let ghost before = out@;
        let ghost xk = x.key@;
        let ghost xt = x.text@;
        out.insert(p, x);
        proof {
            let s = out@;
            assert(s == before.insert(p as int, s[p as int]));
            assert(item_texts(s) =~= item_texts(before).insert(p as int, xt));
            assert(item_keys(s) =~= item_keys(before).insert(p as int, xk));
            let c2 = orig.take(orig.len() - k);
            assert(c2 =~= consumed.push(orig[orig.len() - 1 - k]));
            assert(item_texts(c2) =~= item_texts(consumed).push(xt));
            assert forall|i: int, j: int|
                #![trigger item_texts(s)[i], item_texts(s)[j]]
                0 <= i < j < s.len() implies !keyed_lt(
                item_keys(s)[j],
                item_texts(s)[j],
                item_keys(s)[i],
                item_texts(s)[i],
            ) by {
                let ks = item_keys(s);
                let ts = item_texts(s);
                let kb = item_keys(before);
                let tb = item_texts(before);
                if j < p {
                    assert(ks[i] == kb[i] && ts[i] == tb[i]);
                    assert(ks[j] == kb[j] && ts[j] == tb[j]);
                } else if j == p {
                    assert(ks[i] == kb[i] && ts[i] == tb[i]);
                    lemma_keyed_order(xk, xt, kb[i], tb[i], xk, xt);
                    lemma_keyed_order(kb[i], tb[i], xk, xt, xk, xt);
                } else if i > p {
                    assert(ks[i] == kb[i - 1] && ts[i] == tb[i - 1]);
                    assert(ks[j] == kb[j - 1] && ts[j] == tb[j - 1]);
                } else if i == p {
                    assert(ks[j] == kb[j - 1] && ts[j] == tb[j - 1]);
                    // x sorts before out[p], which sorts no later than out[j - 1]
                    lemma_keyed_order(kb[j - 1], tb[j - 1], xk, xt, kb[p as int], tb[p as int]);
                    if j - 1 > p {
                        assert(!keyed_lt(kb[j - 1], tb[j - 1], kb[p as int], tb[p as int]));
                    } else {
                        lemma_keyed_order(xk, xt, kb[p as int], tb[p as int], xk, xt);
                    }
                } else {
                    assert(i < p && p < j);
                    assert(ks[i] == kb[i] && ts[i] == tb[i]);
                    assert(ks[j] == kb[j - 1] && ts[j] == tb[j - 1]);
                }
            }
            assert(item_pairs(s) =~= item_pairs(before).insert(p as int, (xk, xt)));
            assert(item_pairs(c2) =~= item_pairs(consumed).push((xk, xt)));
            consumed = c2;
        }
    }
    proof {
        assert(consumed =~= orig);
    }
    out
}

/// Sort Minecraft versions into listing order (`sort_mc`): numerically by
/// dot-separated piece, ties broken on the raw text.
pub fn sort_mc(v: &mut Vec<String>)
    ensures
        texts(final(v)@).to_multiset() == texts(old(v)@).to_multiset(),
        forall|i: int, j: int|
            0 <= i < j < final(v)@.len() ==> !mc_lt(#[trigger] final(v)@[j]@, #[trigger] final(v)@[i]@),
{
    let ghost orig = v@;
    let mut items: Vec<Keyed> = Vec::new();
    let mut i: usize = 0;
    while i < v.len()
        invariant
            i <= v@.len(),
            v@ == orig,
            items@.len() == i,
            forall|m: int|
                0 <= m < i ==> keyed_ok(#[trigger] items@[m]) && items@[m].text@ == orig[m]@
                    && items@[m].key@ == mc_key(orig[m]@),
        decreases v@.len() - i,
    {
        let t = v[i].clone();
        let key = mc_version_key(t.as_str());
        let chars = chars_of(t.as_str());
        items.push(Keyed { key, chars, text: t });
        i += 1;
    }
    proof {
        assert(item_texts(items@) =~= texts(orig));
    }
    let ghost items_view = items@;
    let sorted = sort_keyed(items);
    let mut out: Vec<String> = Vec::new();
    let mut sorted = sorted;
    let ghost s = sorted@;
    let mut back: Vec<String> = Vec::new();
    while sorted.len() > 0
        invariant
            sorted@.len() + back@.len() == s.len(),
            forall|m: int| 0 <= m < sorted@.len() ==> sorted@[m] == s[m],
            forall|m: int| 0 <= m < back@.len() ==> back@[m]@ == s[s.len() - 1 - m].text@,
        decreases sorted@.len(),
    {
        let x = sorted.pop().unwrap();
        back.push(x.text);
    }
    let mut j: usize = back.len();
    while j > 0
        invariant
            j <= back@.len() == s.len(),
            forall|m: int| 0 <= m < back@.len() ==> back@[m]@ == s[s.len() - 1 - m].text@,
            out@.len() == s.len() - j,
            forall|m: int| 0 <= m < out@.len() ==> out@[m]@ == s[m].text@,
        decreases j,
    {
        j -= 1;
        let t = back[j].clone();
        out.push(t);
    }
    proof {
        assert(texts(out@) =~= item_texts(s));
        assert forall|a: int| 0 <= a < s.len() implies #[trigger] s[a].key@ == mc_key(s[a].text@) by {
            assert(item_pairs(s)[a] == (s[a].key@, s[a].text@));
            vstd::seq_lib::to_multiset_contains(item_pairs(s), (s[a].key@, s[a].text@));
            vstd::seq_lib::to_multiset_contains(item_pairs(items_view), (s[a].key@, s[a].text@));
            let j = choose|j: int|
                0 <= j < item_pairs(items_view).len() && item_pairs(items_view)[j] == (
                    s[a].key@,
                    s[a].text@,
                );
            assert(item_pairs(items_view)[j] == (items_view[j].key@, items_view[j].text@));
            assert(items_view[j].key@ == mc_key(orig[j]@));
        }
        assert forall|a: int, b: int| 0 <= a < b < out@.len() implies !mc_lt(
            #[trigger] out@[b]@,
            #[trigger] out@[a]@,
        ) by {
            assert(item_keys(s)[a] == s[a].key@);
            assert(item_keys(s)[b] == s[b].key@);
            assert(item_texts(s)[a] == s[a].text@);
            assert(item_texts(s)[b] == s[b].text@);
        }
    }
    *v = out;
}

// ── a mod's facets ──────────────────────────────────────────────────────────

/// Keyed texts in strictly increasing listing order: no two alike.
spec fn keyed_strict(k: Seq<Seq<i64>>, s: Seq<Seq<char>>) -> bool {
    forall|i: int, j: int|
        #![trigger s[i], s[j]]
        0 <= i < j < s.len() ==> keyed_lt(k[i], s[i], k[j], s[j])
}

/// Add `x` to keyed texts held in strictly increasing order, unless an item
/// with the same key and text is already there.
fn insert_keyed_unique(out: &mut Vec<Keyed>, x: Keyed)
    requires
        keyed_ok(x),
        forall|i: int| 0 <= i < old(out)@.len() ==> keyed_ok(#[trigger] old(out)@[i]),
        keyed_strict(item_keys(old(out)@), item_texts(old(out)@)),
    ensures
        forall|i: int| 0 <= i < final(out)@.len() ==> keyed_ok(#[trigger] final(out)@[i]),
        keyed_strict(item_keys(final(out)@), item_texts(final(out)@)),
        forall|p: (Seq<i64>, Seq<char>)|
            item_pairs(final(out)@).contains(p) <==> (item_pairs(old(out)@).contains(p) || p == (
                x.key@,
                x.text@,
            )),
{
    let ghost xk = x.key@;
    let ghost xt = x.text@;
    let mut p: usize = 0;
    while p < out.len() && keyed_less(&out[p], &x)
        invariant
            p <= out@.len(),
            keyed_ok(x),
            xk == x.key@,
            xt == x.text@,
            forall|i: int| 0 <= i < out@.len() ==> keyed_ok(#[trigger] out@[i]),
            forall|m: int| 0 <= m < p ==> keyed_lt(#[trigger] out@[m].key@, out@[m].text@, xk, xt),
        decreases out@.len() - p,
    {
        p += 1;
    }
    if p < out.len() && !keyed_less(&x, &out[p]) {
        proof {
            lemma_keyed_order(out@[p as int].key@, out@[p as int].text@, xk, xt, xk, xt);
            assert(item_pairs(out@)[p as int] == (xk, xt));
        }
        return;
    }
    let ghost before = out@;
    out.insert(p, x);
    proof {
        let s = out@;
        assert(s == before.insert(p as int, s[p as int]));
        assert(item_texts(s) =~= item_texts(before).insert(p as int, xt));
        assert(item_keys(s) =~= item_keys(before).insert(p as int, xk));
        assert(item_pairs(s) =~= item_pairs(before).insert(p as int, (xk, xt)));
        let ks = item_keys(s);
        let ts = item_texts(s);
        let kb = item_keys(before);
        let tb = item_texts(before);
        assert forall|i: int, j: int|
            #![trigger ts[i], ts[j]]
            0 <= i < j < s.len() implies keyed_lt(ks[i], ts[i], ks[j], ts[j]) by {
            if j < p {
                assert(ks[i] == kb[i] && ts[i] == tb[i]);
                assert(ks[j] == kb[j] && ts[j] == tb[j]);
            } else if j == p {
                assert(ks[i] == kb[i] && ts[i] == tb[i]);
                assert(keyed_lt(before[i].key@, before[i].text@, xk, xt));
            } else if i > p {
                assert(ks[i] == kb[i - 1] && ts[i] == tb[i - 1]);
                assert(ks[j] == kb[j - 1] && ts[j] == tb[j - 1]);
            } else if i == p {
                assert(ks[j] == kb[j - 1] && ts[j] == tb[j - 1]);
                lemma_keyed_order(xk, xt, kb[p as int], tb[p as int], kb[j - 1], tb[j - 1]);
                if j - 1 > p {
                    assert(keyed_lt(kb[p as int], tb[p as int], kb[j - 1], tb[j - 1]));
                }
            } else {
                assert(ks[i] == kb[i] && ts[i] == tb[i]);
                assert(ks[j] == kb[j - 1] && ts[j] == tb[j - 1]);
                assert(keyed_lt(before[i].key@, before[i].text@, xk, xt));
                lemma_keyed_order(kb[i], tb[i], xk, xt, kb[j - 1], tb[j - 1]);
                if j - 1 > p {
                    lemma_keyed_order(xk, xt, kb[p as int], tb[p as int], kb[j - 1], tb[j - 1]);
                }
            }
        }
        assert forall|q: (Seq<i64>, Seq<char>)|
            item_pairs(s).contains(q) <==> (item_pairs(before).contains(q) || q == (xk, xt)) by {
            if item_pairs(s).contains(q) {
                let m = choose|m: int| 0 <= m < item_pairs(s).len() && item_pairs(s)[m] == q;
                if m < p {
                    assert(item_pairs(before)[m] == q);
                } else if m > p {
                    assert(item_pairs(before)[m - 1] == q);
                }
            }
            if item_pairs(before).contains(q) {
                let m = choose|m: int| 0 <= m < item_pairs(before).len() && item_pairs(before)[m] == q;
                if m < p {
                    assert(item_pairs(s)[m] == q);
                } else {
                    assert(item_pairs(s)[m + 1] == q);
                }
            }
            if q == (xk, xt) {
                assert(item_pairs(s)[p as int] == q);
            }
        }
    }
}

/// Whether `x` is one of the loaders (`loaders`) or one of the Minecraft
/// versions (`!loaders`) some file declares.
pub open spec fn declared_by(files: Seq<(Vec<String>, Vec<String>)>, loaders: bool, x: Seq<char>) -> bool {
    exists|i: int, j: int|
        #![trigger files[i], facet_of(files[i], loaders, j)]
        0 <= i < files.len() && 0 <= j < facet_len(files[i], loaders) && facet_of(files[i], loaders, j) == x
}

/// How many loaders (`loaders`) or Minecraft versions a file declares.
pub open spec fn facet_len(file: (Vec<String>, Vec<String>), loaders: bool) -> int {
    if loaders { file.0@.len() as int } else { file.1@.len() as int }
}

/// The `j`-th loader (`loaders`) or Minecraft version a file declares.
pub open spec fn facet_of(file: (Vec<String>, Vec<String>), loaders: bool, j: int) -> Seq<char> {
    if loaders { file.0@[j]@ } else { file.1@[j]@ }
}

/// One facet of a mod folded across its files, each value once, strictly in
/// listing order: loaders in text order (`loaders`, key left empty), or
/// Minecraft versions numerically.
fn fold_facet(files: &Vec<(Vec<String>, Vec<String>)>, loaders: bool) -> (r: Vec<String>)
    ensures
        forall|x: Seq<char>| texts(r@).contains(x) <==> declared_by(files@, loaders, x),
        forall|i: int, j: int|
            0 <= i < j < r@.len() ==> (if loaders {
                lex_lt(#[trigger] r@[i]@, #[trigger] r@[j]@)
            } else {
                mc_lt(r@[i]@, r@[j]@)
            }),
{
    let mut out: Vec<Keyed> = Vec::new();
    let mut i: usize = 0;
    while i < files.len()
        invariant
            i <= files@.len(),
            forall|m: int| 0 <= m < out@.len() ==> keyed_ok(#[trigger] out@[m]),
            forall|m: int|
                0 <= m < out@.len() ==> (#[trigger] out@[m]).key@ == (if loaders {
                    Seq::<i64>::empty()
                } else {
                    mc_key(out@[m].text@)
                }),
            keyed_strict(item_keys(out@), item_texts(out@)),
            forall|x: Seq<char>|
                item_texts(out@).contains(x) <==> exists|a: int, b: int|
                    #![trigger files@[a], facet_of(files@[a], loaders, b)]
                    0 <= a < i && 0 <= b < facet_len(files@[a], loaders) && facet_of(
                        files@[a],
                        loaders,
                        b,
                    ) == x,
        decreases files@.len() - i,
    {
        let file = &files[i];
        let vals: &Vec<String> = if loaders { &file.0 } else { &file.1 };
        let mut j: usize = 0;
        while j < vals.len()
            invariant
                i < files@.len(),
                j <= vals@.len(),
                vals@.len() == facet_len(files@[i as int], loaders),
                forall|b: int| 0 <= b < vals@.len() ==> (#[trigger] vals@[b])@ == facet_of(files@[i as int], loaders, b),
                forall|m: int| 0 <= m < out@.len() ==> keyed_ok(#[trigger] out@[m]),
                forall|m: int|
                    0 <= m < out@.len() ==> (#[trigger] out@[m]).key@ == (if loaders {
                        Seq::<i64>::empty()
                    } else {
                        mc_key(out@[m].text@)
                    }),
                keyed_strict(item_keys(out@), item_texts(out@)),
                forall|x: Seq<char>|
                    item_texts(out@).contains(x) <==> (exists|a: int, b: int|
                        #![trigger files@[a], facet_of(files@[a], loaders, b)]
                        0 <= a < i && 0 <= b < facet_len(files@[a], loaders) && facet_of(
                            files@[a],
                            loaders,
                            b,
                        ) == x) || (exists|b: int|
                        0 <= b < j && #[trigger] facet_of(files@[i as int], loaders, b) == x),
            decreases vals@.len() - j,
        {
            let t = vals[j].clone();
            let key: Vec<i64> = if loaders { Vec::new() } else { mc_version_key(t.as_str()) };
            let chars = chars_of(t.as_str());
            let x = Keyed { key, chars, text: t };
            let ghost xk = x.key@;
            let ghost xt = x.text@;
            let ghost before = out@;
            proof {
                assert(xt == facet_of(files@[i as int], loaders, j as int));
                if loaders {
                    assert(xk =~= Seq::<i64>::empty());
                }
            }
            insert_keyed_unique(&mut out, x);
            proof {
                assert forall|m: int| 0 <= m < out@.len() implies (#[trigger] out@[m]).key@ == (if loaders {
                    Seq::<i64>::empty()
                } else {
                    mc_key(out@[m].text@)
                }) by {
                    assert(item_pairs(out@)[m] == (out@[m].key@, out@[m].text@));
                    assert(item_pairs(out@).contains((out@[m].key@, out@[m].text@)));
                    if item_pairs(before).contains((out@[m].key@, out@[m].text@)) {
                        let n = choose|n: int|
                            0 <= n < item_pairs(before).len() && item_pairs(before)[n] == (
                                out@[m].key@,
                                out@[m].text@,
                            );
                        assert(item_pairs(before)[n] == (before[n].key@, before[n].text@));
                    }
                }
                assert forall|x: Seq<char>|
                    item_texts(out@).contains(x) <==> (exists|a: int, b: int|
                        #![trigger files@[a], facet_of(files@[a], loaders, b)]
                        0 <= a < i && 0 <= b < facet_len(files@[a], loaders) && facet_of(
                            files@[a],
                            loaders,
                            b,
                        ) == x) || (exists|b: int|
                        0 <= b < j + 1 && #[trigger] facet_of(files@[i as int], loaders, b) == x) by {
                    if item_texts(out@).contains(x) {
                        let m = choose|m: int| 0 <= m < item_texts(out@).len() && item_texts(out@)[m] == x;
                        assert(item_pairs(out@)[m] == (out@[m].key@, x));
                        assert(item_pairs(out@).contains((out@[m].key@, x)));
                        if item_pairs(before).contains((out@[m].key@, x)) {
                            let n = choose|n: int|
                                0 <= n < item_pairs(before).len() && item_pairs(before)[n] == (
                                    out@[m].key@,
                                    x,
                                );
                            assert(item_texts(before)[n] == x);
                            assert(item_texts(before).contains(x));
                        } else {
                            assert(x == facet_of(files@[i as int], loaders, j as int));
                        }
                    }
                    let from_before = item_texts(before).contains(x);
                    if from_before {
                        let n = choose|n: int| 0 <= n < item_texts(before).len() && item_texts(before)[n] == x;
                        assert(item_pairs(before)[n] == (before[n].key@, x));
                        assert(item_pairs(before).contains((before[n].key@, x)));
                        let m = choose|m: int|
                            0 <= m < item_pairs(out@).len() && item_pairs(out@)[m] == (before[n].key@, x);
                        assert(item_texts(out@)[m] == x);
                    }
                    if x == xt {
                        assert(item_pairs(out@).contains((xk, xt)));
                        let m = choose|m: int| 0 <= m < item_pairs(out@).len() && item_pairs(out@)[m] == (xk, xt);
                        assert(item_texts(out@)[m] == x);
                    }
                    if exists|b: int| 0 <= b < j + 1 && #[trigger] facet_of(files@[i as int], loaders, b) == x {
                        let b = choose|b: int| 0 <= b < j + 1 && #[trigger] facet_of(files@[i as int], loaders, b) == x;
                        if b < j {
                            assert(exists|b: int| 0 <= b < j && #[trigger] facet_of(files@[i as int], loaders, b) == x);
                        }
                    }
                }
            }
            j += 1;
        }
        proof {
            assert forall|x: Seq<char>|
                item_texts(out@).contains(x) <==> exists|a: int, b: int|
                    #![trigger files@[a], facet_of(files@[a], loaders, b)]
                    0 <= a < i + 1 && 0 <= b < facet_len(files@[a], loaders) && facet_of(
                        files@[a],
                        loaders,
                        b,
                    ) == x by {
                if exists|b: int| 0 <= b < j && #[trigger] facet_of(files@[i as int], loaders, b) == x {
                    let b = choose|b: int| 0 <= b < j && #[trigger] facet_of(files@[i as int], loaders, b) == x;
                    assert(files@[i as int] == files@[i as int]);
                }
                if exists|a: int, b: int|
                    #![trigger files@[a], facet_of(files@[a], loaders, b)]
                    0 <= a < i + 1 && 0 <= b < facet_len(files@[a], loaders) && facet_of(
                        files@[a],
                        loaders,
                        b,
                    ) == x {
                    let (a, b) = choose|a: int, b: int|
                        #![trigger files@[a], facet_of(files@[a], loaders, b)]
                        0 <= a < i + 1 && 0 <= b < facet_len(files@[a], loaders) && facet_of(
                            files@[a],
                            loaders,
                            b,
                        ) == x;
                    if a == i {
                        assert(0 <= b < j && facet_of(files@[i as int], loaders, b) == x);
                    }
                }
            }
        }
        i += 1;
    }
    // hand the texts back in order
    let ghost s = out@;
    let mut back: Vec<String> = Vec::new();
    while out.len() > 0
        invariant
            out@.len() + back@.len() == s.len(),
            forall|m: int| 0 <= m < out@.len() ==> out@[m] == s[m],
            forall|m: int| 0 <= m < back@.len() ==> back@[m]@ == s[s.len() - 1 - m].text@,
        decreases out@.len(),
    {
        let x = out.pop().unwrap();
        back.push(x.text);
    }
    let mut r: Vec<String> = Vec::new();
    let mut k: usize = back.len();
    while k > 0
        invariant
            k <= back@.len() == s.len(),
            forall|m: int| 0 <= m < back@.len() ==> back@[m]@ == s[s.len() - 1 - m].text@,
            r@.len() == s.len() - k,
            forall|m: int| 0 <= m < r@.len() ==> r@[m]@ == s[m].text@,
        decreases k,
    {
        k -= 1;
        let t = back[k].clone();
        r.push(t);
    }
    proof {
        assert(texts(r@) =~= item_texts(s));
        assert forall|a: int, b: int| 0 <= a < b < r@.len() implies (if loaders {
            lex_lt(#[trigger] r@[a]@, #[trigger] r@[b]@)
        } else {
            mc_lt(r@[a]@, r@[b]@)
        }) by {
            assert(item_texts(s)[a] == r@[a]@ && item_texts(s)[b] == r@[b]@);
            assert(item_keys(s)[a] == s[a].key@ && item_keys(s)[b] == s[b].key@);
            assert(keyed_lt(item_keys(s)[a], item_texts(s)[a], item_keys(s)[b], item_texts(s)[b]));
            if loaders {
                lemma_key_asymmetric(Seq::<i64>::empty(), Seq::<i64>::empty());
            }
        }
    }
    r
}

/// The facets a mod's page lists, folded across every file rather than
/// queried again: each loader any file targets, once and in text order, and
/// each Minecraft version any file declares, once and in listing order.
/// A file is its targets and its Minecraft versions.
pub fn fold_facets(files: &Vec<(Vec<String>, Vec<String>)>) -> (r: (Vec<String>, Vec<String>))
    ensures
        forall|x: Seq<char>| texts(r.0@).contains(x) <==> declared_by(files@, true, x),
        forall|i: int, j: int| 0 <= i < j < r.0@.len() ==> lex_lt(#[trigger] r.0@[i]@, #[trigger] r.0@[j]@),
        forall|x: Seq<char>| texts(r.1@).contains(x) <==> declared_by(files@, false, x),
        forall|i: int, j: int| 0 <= i < j < r.1@.len() ==> mc_lt(#[trigger] r.1@[i]@, #[trigger] r.1@[j]@),
{
    let loaders = fold_facet(files, true);
    let mc = fold_facet(files, false);
    proof {
        assert forall|i: int, j: int| 0 <= i < j < mc@.len() implies mc_lt(#[trigger] mc@[i]@, #[trigger] mc@[j]@) by {
            assert(if false { lex_lt(mc@[i]@, mc@[j]@) } else { mc_lt(mc@[i]@, mc@[j]@) });
        }
    }
    (loaders, mc)
}

} // verus!

verus! {

// ── a cell of Minecraft versions ────────────────────────────────────────────

/// The list a JSON text holds when it is an array of strings, as
/// `serde_json::from_str::<Vec<String>>` reads it; `None` for any other text.
pub uninterp spec fn json_string_list(text: Seq<char>) -> Option<Seq<Seq<char>>>;

/// Read a JSON array of strings. Calls `serde_json::from_str::<Vec<String>>`;
/// the contract claims only that the answer is `json_string_list` of the
/// text, a function of the text alone, with any error read as `None`.
#[verifier::external_body]
fn read_json_strings(text: &str) -> (r: Option<Vec<String>>)
    ensures
        match r {
            Some(v) => json_string_list(text@) == Some(texts(v@)),
            None => json_string_list(text@) is None,
        },
{
    serde_json::from_str::<Vec<String>>(text).ok()
}

/// Decode a `mod_version.mc_versions` cell (a JSON array of strings, or NULL)
/// into a plain list in listing order. Tolerant: a NULL or unparseable cell
/// yields an empty list.
pub fn decode_mc(raw: Option<String>) -> (v: Vec<String>)
    ensures
        texts(v@).to_multiset() == (match raw {
            Some(s) => match json_string_list(s@) {
                Some(l) => l,
                None => Seq::empty(),
            },
            None => Seq::empty(),
        }).to_multiset(),
        forall|i: int, j: int|
            0 <= i < j < v@.len() ==> !mc_lt(#[trigger] v@[j]@, #[trigger] v@[i]@),
{
    let mut v: Vec<String> = match raw {
        Some(s) => match read_json_strings(s.as_str()) {
            Some(l) => l,
            None => Vec::new(),
        },
        None => Vec::new(),
    };
    proof {
        assert(texts(Seq::<String>::empty()) =~= Seq::<Seq<char>>::empty());
    }
    sort_mc(&mut v);
    v
}

// ── search values ───────────────────────────────────────────────────────────

/// A `LIKE` metacharacter.
pub open spec fn like_special(c: char) -> bool {
    c == '\\' || c == '%' || c == '_'
}

/// A search value with each `LIKE` metacharacter escaped by a backslash, so
/// it matches itself (paired with `ESCAPE '\'` on the clause).
pub open spec fn like_escape_spec(s: Seq<char>) -> Seq<char>
    decreases s.len(),
{
    if s.len() == 0 {
        Seq::empty()
    } else if like_special(s.last()) {
        like_escape_spec(s.drop_last()).push('\\').push(s.last())
    } else {
        like_escape_spec(s.drop_last()).push(s.last())
    }
}

/// Escape the `LIKE` metacharacters in an operator's search value so a
/// literal `%` or `_` matches itself rather than acting as a wildcard.
pub fn like_escape(s: &str) -> (r: String)
    ensures
        r@ == like_escape_spec(s@),
{
    let v = chars_of(s);
    let mut out = String::new();
    let mut i: usize = 0;
    while i < v.len()
        invariant
            i <= v.len(),
            v@ == s@,
            out@ == like_escape_spec(v@.take(i as int)),
        decreases v.len() - i,
    {
        let c = v[i];
        proof {
            let t = v@.take(i + 1);
            assert(t.drop_last() =~= v@.take(i as int));
            assert(t.last() == c);
        }
        if c == '\\' || c == '%' || c == '_' {
            out.push('\\');
        }
        out.push(c);
        i += 1;
    }
    proof {
        assert(v@.take(v.len() as int) =~= v@);
    }
    out
}

/// The `LIKE` value a name search is matched with: the escaped search text
/// anywhere in the name.
pub fn name_pattern(q: &str) -> (r: String)
    ensures
        r@ == seq!['%'] + like_escape_spec(q@) + seq!['%'],
{
    let mut r = String::new();
    r.push('%');
    let e = like_escape(q);
    r.push_str(e.as_str());
    r.push('%');
    proof {
        assert(r@ =~= seq!['%'] + like_escape_spec(q@) + seq!['%']);
    }
    r
}

/// The `LIKE` value a Minecraft-version filter matches an `mc_versions` cell
/// with: the escaped version as one whole JSON string anywhere in the array,
/// so `1.12` does not match a cell holding only `1.12.2`.
pub fn mc_pattern(mc: &str) -> (r: String)
    ensures
        r@ == seq!['%', '"'] + like_escape_spec(mc@) + seq!['"', '%'],
{
    let mut r = String::new();
    r.push('%');
    r.push('"');
    let e = like_escape(mc);
    r.push_str(e.as_str());
    r.push('"');
    r.push('%');
    proof {
        assert(r@ =~= seq!['%', '"'] + like_escape_spec(mc@) + seq!['"', '%']);
    }
    r
}

// ── picking an artifact by channel ─────────────────────────────────────────

/// Channel preference when picking which artifact represents a mod in a
/// slice: a stable release outranks a beta, which outranks an alpha, which
/// outranks anything else.
pub open spec fn channel_rank_spec(channel: Seq<char>) -> i32 {
    if channel == "release"@ {
        3
    } else if channel == "beta"@ {
        2
    } else if channel == "alpha"@ {
        1
    } else {
        0
    }
}

/// A channel's rank when picking an artifact (see [`channel_rank_spec`]).
pub fn channel_rank(channel: &str) -> (r: i32)
    ensures
        r == channel_rank_spec(channel@),
{
    let c = chars_of(channel);
    if crate::text::str_is(&c, "release") {
        3
    } else if crate::text::str_is(&c, "beta") {
        2
    } else if crate::text::str_is(&c, "alpha") {
        1
    } else {
        0
    }
}

/// Whether an artifact displaces the current pick for its mod in a slice. A
/// better channel wins outright; on the same channel the version decides
/// where both versions can be read (`newer`: whether this one reads as newer
/// than the pick's, `None` when either cannot be read), and otherwise the
/// later-harvested row (the larger id) wins -- a proxy, but a deterministic
/// one that never pretends to have understood a version it could not parse.
pub open spec fn displaces_spec(rank: i32, cur_rank: i32, newer: Option<bool>, id: i64, cur_id: i64) -> bool {
    if rank > cur_rank {
        true
    } else if rank < cur_rank {
        false
    } else {
        match newer {
            Some(b) => b,
            None => id > cur_id,
        }
    }
}

/// Whether the artifact `id` on channel rank `rank` displaces the current
/// pick `cur_id` on `cur_rank` (see [`displaces_spec`]).
pub fn displaces(rank: i32, cur_rank: i32, newer: Option<bool>, id: i64, cur_id: i64) -> (b: bool)
    ensures
        b == displaces_spec(rank, cur_rank, newer, id, cur_id),
{
    if rank > cur_rank {
        true
    } else if rank < cur_rank {
        false
    } else {
        match newer {
            Some(b) => b,
            None => id > cur_id,
        }
    }
}

// ── the name a mod is shown by ─────────────────────────────────────────────

/// A mod's display name: its canonical name, else its slug, else its modid,
/// else `#` and its id.
pub open spec fn shown_name_spec(
    id: i64,
    canonical: Option<Seq<char>>,
    slug: Option<Seq<char>>,
    modid: Option<Seq<char>>,
) -> Seq<char> {
    match canonical {
        Some(c) => c,
        None => match slug {
            Some(s) => s,
            None => match modid {
                Some(m) => m,
                None => seq!['#'] + crate::text::signed_decimal(id as int),
            },
        },
    }
}

/// A mod's display name, resolved the same way everywhere: canonical_name ->
/// slug -> modid -> `#<id>`.
pub fn shown_name(id: i64, canonical: Option<&str>, slug: Option<&str>, modid: Option<&str>) -> (r: String)
    ensures
        r@ == shown_name_spec(
            id,
            match canonical { Some(c) => Some(c@), None => None },
            match slug { Some(s) => Some(s@), None => None },
            match modid { Some(m) => Some(m@), None => None },
        ),
{
    match canonical {
        Some(c) => crate::text::owned(c),
        None => match slug {
            Some(s) => crate::text::owned(s),
            None => match modid {
                Some(m) => crate::text::owned(m),
                None => {
                    let mut r = String::new();
                    r.push('#');
                    let d = crate::text::i64_text(id);
                    r.push_str(d.as_str());
                    proof {
                        assert(r@ =~= seq!['#'] + crate::text::signed_decimal(id as int));
                    }
                    r
                },
            },
        },
    }
}

/// The display-name cascade as SQL over the table aliased `alias`, lowercased.
pub open spec fn display_name_sql_spec(alias: Seq<char>) -> Seq<char> {
    "lower(COALESCE("@ + alias + ".canonical_name, "@ + alias + ".slug, "@
        + "(SELECT external_key FROM mod_alias WHERE mod_id = "@ + alias
        + ".id AND source = 'modid' LIMIT 1), "@ + "'#' || "@ + alias + ".id))"@
}

/// The name a mod is displayed by, as SQL over the table aliased `alias`:
/// `canonical_name -> slug -> modid -> #<id>`, lowercased -- the same cascade
/// a listing builds each row's `name` from, so ordering by it orders by what
/// a reader sees. `alias` is a literal of the registry's own, never anyone's
/// input.
pub fn display_name_sql(alias: &str) -> (r: String)
    ensures
        r@ == display_name_sql_spec(alias@),
{
    let mut r = crate::text::owned("lower(COALESCE(");
    r.push_str(alias);
    r.push_str(".canonical_name, ");
    r.push_str(alias);
    r.push_str(".slug, ");
    r.push_str("(SELECT external_key FROM mod_alias WHERE mod_id = ");
    r.push_str(alias);
    r.push_str(".id AND source = 'modid' LIMIT 1), ");
    r.push_str("'#' || ");
    r.push_str(alias);
    r.push_str(".id))");
    proof {
        assert(r@ =~= display_name_sql_spec(alias@));
    }
    r
}

// ── one jar's readout ──────────────────────────────────────────────────────

/// One jar's readout, as stored: what the harvest read out of a jar it
/// opened, and its classification when one was made.
#[derive(Debug, Clone, Default)]
pub struct JarReadRow {
    pub modid: Option<String>,
    pub name: Option<String>,
    pub version: Option<String>,
    pub loaders: Option<String>,
    pub mc: Option<String>,
    pub filename: Option<String>,
    pub kind: Option<String>,
}

} // verus!

verus! {

// ── a requested list of Modrinth project ids ───────────────────────────────

/// How many project ids one name lookup answers at most.
pub const MAX_NAME_IDS: usize = 256;

/// The pieces that are not blank, each trimmed.
pub open spec fn nonblank_trimmed(pieces: Seq<Seq<char>>) -> Seq<Seq<char>>
    decreases pieces.len(),
{
    if pieces.len() == 0 {
        Seq::empty()
    } else {
        let before = nonblank_trimmed(pieces.drop_last());
        if crate::text::trim(pieces.last()).len() > 0 {
            before.push(crate::text::trim(pieces.last()))
        } else {
            before
        }
    }
}

/// The ids a comma-separated request names: each piece trimmed, blanks left
/// out.
pub open spec fn id_candidates(raw: Option<Seq<char>>) -> Seq<Seq<char>> {
    nonblank_trimmed(split_spec(
        match raw {
            Some(r) => r,
            None => Seq::empty(),
        },
        ',',
    ))
}

/// The ids a lookup answers for: the distinct requested ids in order, at
/// most [`MAX_NAME_IDS`] of them, the smallest first. Every id is one that
/// was requested, each requested id is there unless the list is full and
/// every listed id sorts before it.
pub open spec fn requested_ids_ok(raw: Option<Seq<char>>, r: Seq<Seq<char>>) -> bool {
    &&& r.len() <= MAX_NAME_IDS
    &&& forall|a: int, b: int| 0 <= a < b < r.len() ==> lex_lt(#[trigger] r[a], #[trigger] r[b])
    &&& forall|a: int| 0 <= a < r.len() ==> id_candidates(raw).contains(#[trigger] r[a])
    &&& forall|x: Seq<char>|
        #[trigger] id_candidates(raw).contains(x) ==> r.contains(x) || (r.len() == MAX_NAME_IDS
            && lex_lt(r.last(), x))
}

/// The Modrinth project ids a name lookup asks for (`?ids=a,b,c`): trimmed,
/// blanks dropped, sorted, deduplicated, and capped at [`MAX_NAME_IDS`].
pub fn requested_ids(ids: Option<&str>) -> (r: Vec<String>)
    ensures
        requested_ids_ok(match ids { Some(s) => Some(s@), None => None }, texts(r@)),
{
    let ghost raw = match ids { Some(s) => Some(s@), None => None };
    let text: Vec<char> = match ids {
        Some(s) => chars_of(s),
        None => Vec::new(),
    };
    let pieces = split_chars(&text, ',');
    let ghost cands = id_candidates(raw);
    let mut items: Vec<Keyed> = Vec::new();
    let mut i: usize = 0;
    proof {
        assert(text@ == match raw { Some(r) => r, None => Seq::<char>::empty() });
        assert(views(pieces@).take(0) =~= Seq::<Seq<char>>::empty());
    }
    while i < pieces.len()
        invariant
            i <= pieces.len(),
            views(pieces@) == split_spec(text@, ','),
            item_texts(items@) == nonblank_trimmed(views(pieces@).take(i as int)),
            forall|m: int| 0 <= m < items@.len() ==> keyed_ok(#[trigger] items@[m]),
            forall|m: int| 0 <= m < items@.len() ==> (#[trigger] items@[m]).key@ == Seq::<i64>::empty(),
        decreases pieces.len() - i,
    {
        let t = crate::text::trim_chars(&pieces[i]);
        proof {
            let p = views(pieces@).take(i + 1);
            assert(p.drop_last() =~= views(pieces@).take(i as int));
            assert(p.last() == pieces@[i as int]@);
        }
        if t.len() > 0 {
            let text_i = string_of(&t);
            let ghost before = items@;
            items.push(Keyed { key: Vec::new(), chars: t, text: text_i });
            proof {
                assert(item_texts(items@) =~= item_texts(before).push(items@[before.len() as int].text@));
            }
        }
        i += 1;
    }
    proof {
        assert(views(pieces@).take(pieces.len() as int) =~= views(pieces@));
        assert(item_texts(items@) == cands);
    }
    let ghost input = items@;
    let sorted = sort_keyed(items);
    let ghost l = sorted@;
    proof {
        assert forall|a: int| 0 <= a < l.len() implies (#[trigger] l[a]).key@ == Seq::<i64>::empty()
            && cands.contains(l[a].text@) by {
            assert(item_pairs(l)[a] == (l[a].key@, l[a].text@));
            vstd::seq_lib::to_multiset_contains(item_pairs(l), (l[a].key@, l[a].text@));
            vstd::seq_lib::to_multiset_contains(item_pairs(input), (l[a].key@, l[a].text@));
            let j = choose|j: int|
                0 <= j < item_pairs(input).len() && item_pairs(input)[j] == (l[a].key@, l[a].text@);
            assert(item_pairs(input)[j] == (input[j].key@, input[j].text@));
            assert(item_texts(input)[j] == input[j].text@);
        }
        assert forall|a: int, b: int| 0 <= a < b < l.len() implies !lex_lt(
            #[trigger] l[b].text@,
            #[trigger] l[a].text@,
        ) by {
            assert(item_texts(l)[a] == l[a].text@);
            assert(item_texts(l)[b] == l[b].text@);
            assert(item_keys(l)[a] == l[a].key@);
            assert(item_keys(l)[b] == l[b].key@);
        }
        assert forall|x: Seq<char>| cands.contains(x) implies exists|m: int|
            0 <= m < l.len() && (#[trigger] l[m]).text@ == x by {
            vstd::seq_lib::to_multiset_contains(item_texts(input), x);
            vstd::seq_lib::to_multiset_contains(item_texts(l), x);
            let m = choose|m: int| 0 <= m < item_texts(l).len() && item_texts(l)[m] == x;
            assert(item_texts(l)[m] == l[m].text@);
        }
    }
    let mut out: Vec<String> = Vec::new();
    let mut last: Vec<char> = Vec::new();
    let mut k: usize = 0;
    while k < sorted.len()
        invariant
            k <= l.len(),
            sorted@ == l,
            forall|a: int| 0 <= a < l.len() ==> keyed_ok(#[trigger] l[a]),
            forall|a: int, b: int| 0 <= a < b < l.len() ==> !lex_lt(#[trigger] l[b].text@, #[trigger] l[a].text@),
            forall|a: int| 0 <= a < l.len() ==> cands.contains((#[trigger] l[a]).text@),
            out@.len() <= MAX_NAME_IDS,
            out@.len() > 0 ==> last@ == out@.last()@,
            forall|a: int, b: int| 0 <= a < b < out@.len() ==> lex_lt(#[trigger] out@[a]@, #[trigger] out@[b]@),
            forall|a: int| 0 <= a < out@.len() ==> cands.contains((#[trigger] out@[a])@),
            out@.len() > 0 ==> forall|m: int| k <= m < l.len() ==> !lex_lt((#[trigger] l[m]).text@, out@.last()@),
            forall|m: int| 0 <= m < k ==> texts(out@).contains((#[trigger] l[m]).text@) || (out@.len()
                == MAX_NAME_IDS && lex_lt(out@.last()@, l[m].text@)),
        decreases l.len() - k,
    {
        let x = &sorted[k];
        let same = out.len() > 0 && crate::text::chars_eq(&x.chars, &last);
        if !same && out.len() < MAX_NAME_IDS {
            let ghost before = out@;
            proof {
                if before.len() > 0 {
                    lemma_lex_total(before.last()@, x.text@);
                    assert(lex_lt(before.last()@, x.text@));
                }
            }
            out.push(x.text.clone());
            last = slice_chars_of(&x.chars);
            proof {
                assert forall|a: int, b: int| 0 <= a < b < out@.len() implies lex_lt(
                    #[trigger] out@[a]@,
                    #[trigger] out@[b]@,
                ) by {
                    if b == out@.len() - 1 && a < b - 1 {
                        lemma_lex_transitive(out@[a]@, before.last()@, x.text@);
                    }
                }
                assert(texts(out@)[out@.len() - 1] == x.text@);
                assert forall|m: int| 0 <= m < k + 1 implies texts(out@).contains((#[trigger] l[m]).text@)
                    || (out@.len() == MAX_NAME_IDS && lex_lt(out@.last()@, l[m].text@)) by {
                    if m < k {
                        if texts(before).contains(l[m].text@) {
                            let w = choose|w: int| 0 <= w < texts(before).len() && texts(before)[w] == l[m].text@;
                            assert(texts(out@)[w] == l[m].text@);
                        }
                    }
                }
            }
        } else {
            proof {
                if !same {
                    lemma_lex_total(out@.last()@, x.text@);
                }
                assert forall|m: int| 0 <= m < k + 1 implies texts(out@).contains((#[trigger] l[m]).text@)
                    || (out@.len() == MAX_NAME_IDS && lex_lt(out@.last()@, l[m].text@)) by {
                    if m == k && same {
                        assert(texts(out@)[out@.len() - 1] == x.text@);
                    }
                }
            }
        }
        k += 1;
    }
    proof {
        let r = texts(out@);
        assert forall|a: int, b: int| 0 <= a < b < r.len() implies lex_lt(#[trigger] r[a], #[trigger] r[b]) by {
            assert(r[a] == out@[a]@);
            assert(r[b] == out@[b]@);
        }
        assert forall|a: int| 0 <= a < r.len() implies cands.contains(#[trigger] r[a]) by {
            assert(r[a] == out@[a]@);
        }
        assert forall|x: Seq<char>| #[trigger] cands.contains(x) implies r.contains(x) || (r.len()
            == MAX_NAME_IDS && lex_lt(r.last(), x)) by {
            let m = choose|m: int| 0 <= m < l.len() && (#[trigger] l[m]).text@ == x;
            if out@.len() > 0 {
                assert(r.last() == out@.last()@);
            }
        }
    }
    out
}

/// A copy of a character vector.
fn slice_chars_of(v: &Vec<char>) -> (r: Vec<char>)
    ensures
        r@ == v@,
{
    crate::text::slice_chars(v, 0, v.len())
}

} // verus!

verus! {

// ── laws of the listing order and the search escape ─────────────────────────

/// The order Minecraft versions are listed in is a strict total order: no
/// version before itself, never both ways round, transitive, and any two
/// different versions in one order or the other -- so a sorted listing is
/// the same listing whatever order the versions arrived in.
pub proof fn law_mc_order_is_total(a: Seq<char>, b: Seq<char>, c: Seq<char>)
    ensures
        !mc_lt(a, a),
        mc_lt(a, b) ==> !mc_lt(b, a),
        mc_lt(a, b) && mc_lt(b, c) ==> mc_lt(a, c),
        a == b || mc_lt(a, b) || mc_lt(b, a),
{
    lemma_keyed_order(mc_key(a), a, mc_key(b), b, mc_key(c), c);
}

/// Version keys compare piece by piece by numeric value: two keys that agree
/// on their first `i` pieces are ordered by piece `i`, the smaller number
/// first (so 1.20.1 lists before 1.20.4, and 1.7.10 before 1.10.2).
pub proof fn law_keys_compare_piece_by_piece(a: Seq<i64>, b: Seq<i64>, i: int)
    requires
        0 <= i < a.len(),
        i < b.len(),
        a.take(i) == b.take(i),
        a[i] < b[i],
    ensures
        key_lt(a, b),
        !key_lt(b, a),
    decreases i,
{
    lemma_key_asymmetric(a, b);
    if i > 0 {
        assert(a[0] == a.take(i)[0]);
        assert(b[0] == b.take(i)[0]);
        assert(a.drop_first().take(i - 1) =~= a.take(i).drop_first());
        assert(b.drop_first().take(i - 1) =~= b.take(i).drop_first());
        law_keys_compare_piece_by_piece(a.drop_first(), b.drop_first(), i - 1);
    }
}

/// A key lists before every longer key it begins: 1.20 before 1.20.1.
pub proof fn law_a_prefix_key_lists_first(a: Seq<i64>, b: Seq<i64>)
    requires
        a.len() < b.len(),
        b.take(a.len() as int) == a,
    ensures
        key_lt(a, b),
        !key_lt(b, a),
    decreases a.len(),
{
    lemma_key_asymmetric(a, b);
    if a.len() > 0 {
        assert(a[0] == b.take(a.len() as int)[0]);
        assert(b.drop_first().take(a.len() - 1) =~= a.drop_first());
        law_a_prefix_key_lists_first(a.drop_first(), b.drop_first());
    }
}

/// Each dot-separated piece of a version keys by the number its leading
/// digits spell, and a piece that starts with no digit keys as -1.
pub proof fn law_version_pieces_read_as_numbers(v: Seq<char>, i: int)
    requires
        0 <= i < split_spec(v, '.').len(),
    ensures
        mc_key(v).len() == split_spec(v, '.').len(),
        ({
            let p = split_spec(v, '.')[i];
            &&& (p.len() > 0 && crate::number::all_digits(p) && crate::number::dec_value(p) <= 0x7FFF_FFFF_FFFF_FFFF)
                ==> mc_key(v)[i] == crate::number::dec_value(p)
            &&& (p.len() == 0 || !is_digit(p[0])) ==> mc_key(v)[i] == -1
        }),
{
    let p = split_spec(v, '.')[i];
    assert(mc_key(v)[i] == segment_key(p));
    if p.len() > 0 && crate::number::all_digits(p) {
        lemma_digit_prefix_all(p);
    }
    if p.len() == 0 || !is_digit(p[0]) {
        assert(digit_prefix(p) =~= Seq::<char>::empty());
    }
}

proof fn lemma_digit_prefix_all(p: Seq<char>)
    requires
        crate::number::all_digits(p),
    ensures
        digit_prefix(p) == p,
    decreases p.len(),
{
    if p.len() > 0 {
        assert(crate::number::all_digits(p.drop_first())) by {
            assert forall|k: int| 0 <= k < p.drop_first().len() implies is_digit(#[trigger] p.drop_first()[k]) by {
                assert(p.drop_first()[k] == p[k + 1]);
            }
        }
        lemma_digit_prefix_all(p.drop_first());
        assert(seq![p[0]] + p.drop_first() =~= p);
    }
}

/// Versions list by their keys: when the key of `x` comes before the key of
/// `y` piece by piece, `x` lists before `y`, whatever their text.
pub proof fn law_versions_list_by_key(x: Seq<char>, y: Seq<char>, i: int)
    requires
        0 <= i < mc_key(x).len(),
        i < mc_key(y).len(),
        mc_key(x).take(i) == mc_key(y).take(i),
        mc_key(x)[i] < mc_key(y)[i],
    ensures
        mc_lt(x, y),
        !mc_lt(y, x),
{
    law_keys_compare_piece_by_piece(mc_key(x), mc_key(y), i);
    if mc_key(x) == mc_key(y) {
        assert(mc_key(x)[i] == mc_key(y)[i]);
    }
}

/// A stable release outranks a beta, which outranks an alpha, which
/// outranks any other channel; every other channel ranks the same.
pub proof fn law_release_outranks_beta_outranks_alpha(other: Seq<char>, another: Seq<char>)
    requires
        other != "release"@ && other != "beta"@ && other != "alpha"@,
        another != "release"@ && another != "beta"@ && another != "alpha"@,
    ensures
        channel_rank_spec("release"@) > channel_rank_spec("beta"@),
        channel_rank_spec("beta"@) > channel_rank_spec("alpha"@),
        channel_rank_spec("alpha"@) > channel_rank_spec(other),
        channel_rank_spec(other) == channel_rank_spec(another),
{
    reveal_strlit("release");
    reveal_strlit("beta");
    reveal_strlit("alpha");
    assert("release"@.len() == 7 && "beta"@.len() == 4 && "alpha"@.len() == 5);
}

/// Which artifact represents a mod: one on a better channel always
/// displaces the current pick and one on a worse channel never does; on the
/// same channel the newer version wins when the versions compare, and
/// otherwise the one harvested later (the higher id).
pub proof fn law_better_channel_then_newer_wins(rank: i32, cur_rank: i32, newer: Option<bool>, id: i64, cur_id: i64)
    ensures
        rank > cur_rank ==> displaces_spec(rank, cur_rank, newer, id, cur_id),
        rank < cur_rank ==> !displaces_spec(rank, cur_rank, newer, id, cur_id),
        rank == cur_rank && newer == Some(true) ==> displaces_spec(rank, cur_rank, newer, id, cur_id),
        rank == cur_rank && newer == Some(false) ==> !displaces_spec(rank, cur_rank, newer, id, cur_id),
        rank == cur_rank && newer is None ==> (displaces_spec(rank, cur_rank, newer, id, cur_id) <==> id > cur_id),
{
}

/// A mod is shown by its canonical name when it has one; without one by its
/// slug; without either by its modid; and with none of them as `#` followed
/// by its id in decimal.
pub proof fn law_a_mod_is_shown_by_its_best_name(
    id: i64,
    canonical: Option<Seq<char>>,
    slug: Option<Seq<char>>,
    modid: Option<Seq<char>>,
)
    ensures
        canonical matches Some(c) ==> shown_name_spec(id, canonical, slug, modid) == c,
        canonical is None && slug is Some ==> shown_name_spec(id, canonical, slug, modid) == slug->0,
        canonical is None && slug is None && modid is Some ==> shown_name_spec(id, canonical, slug, modid) == modid->0,
        canonical is None && slug is None && modid is None ==> shown_name_spec(id, canonical, slug, modid)
            == seq!['#'] + crate::text::signed_decimal(id as int),
{
}

/// A listing of Minecraft versions in list order: no version after one that
/// sorts before it.
pub open spec fn mc_sorted(s: Seq<Seq<char>>) -> bool {
    forall|i: int, j: int| 0 <= i < j < s.len() ==> !mc_lt(#[trigger] s[j], #[trigger] s[i])
}

/// A sorted listing of Minecraft versions is fixed by which versions it
/// holds: two sorted listings of the same versions are the same listing. So
/// the listing does not depend on the order the versions arrived in, and
/// sorting a sorted listing again changes nothing.
pub proof fn law_sorted_listing_is_unique(a: Seq<Seq<char>>, b: Seq<Seq<char>>)
    requires
        a.to_multiset() == b.to_multiset(),
        mc_sorted(a),
        mc_sorted(b),
    ensures
        a == b,
    decreases a.len(),
{
    broadcast use vstd::seq_lib::group_to_multiset_ensures;

    assert(a.to_multiset().len() == a.len());
    assert(b.to_multiset().len() == b.len());
    if a.len() == 0 {
        assert(a =~= b);
    } else {
        assert(b.contains(b[0]));
        assert(a.to_multiset().count(b[0]) > 0);
        assert(a.contains(b[0]));
        let i = choose|i: int| 0 <= i < a.len() && a[i] == b[0];
        assert(a.contains(a[0]));
        assert(b.to_multiset().count(a[0]) > 0);
        assert(b.contains(a[0]));
        let j = choose|j: int| 0 <= j < b.len() && b[j] == a[0];
        law_mc_order_is_total(a[0], b[0], a[0]);
        if i > 0 {
            assert(!mc_lt(a[i], a[0]));
        }
        if j > 0 {
            assert(!mc_lt(b[j], b[0]));
        }
        assert(a[0] == b[0]);
        assert(a.remove(0) =~= a.drop_first());
        assert(b.remove(0) =~= b.drop_first());
        assert(a.drop_first().to_multiset() == a.to_multiset().remove(a[0]));
        assert(b.drop_first().to_multiset() == b.to_multiset().remove(b[0]));
        assert forall|x: int, y: int| 0 <= x < y < a.drop_first().len() implies !mc_lt(
            #[trigger] a.drop_first()[y],
            #[trigger] a.drop_first()[x],
        ) by {
            assert(a.drop_first()[y] == a[y + 1]);
            assert(a.drop_first()[x] == a[x + 1]);
        }
        assert forall|x: int, y: int| 0 <= x < y < b.drop_first().len() implies !mc_lt(
            #[trigger] b.drop_first()[y],
            #[trigger] b.drop_first()[x],
        ) by {
            assert(b.drop_first()[y] == b[y + 1]);
            assert(b.drop_first()[x] == b[x + 1]);
        }
        law_sorted_listing_is_unique(a.drop_first(), b.drop_first());
        assert(a =~= b) by {
            assert forall|k: int| 0 <= k < a.len() implies a[k] == b[k] by {
                if k > 0 {
                    assert(a[k] == a.drop_first()[k - 1]);
                    assert(b[k] == b.drop_first()[k - 1]);
                }
            }
        }
    }
}

/// One character of a search value as the escape writes it.
pub open spec fn like_escape_char(c: char) -> Seq<char> {
    if like_special(c) {
        seq!['\\', c]
    } else {
        seq![c]
    }
}

/// The one text a `LIKE` pattern with `ESCAPE '\'` matches, when it matches
/// exactly one: a backslash takes the character after it literally, while an
/// unescaped `%` or `_` (a wildcard), or a lone backslash at the end, leaves
/// the pattern no single text.
pub open spec fn like_literal(p: Seq<char>) -> Option<Seq<char>>
    decreases p.len(),
{
    if p.len() == 0 {
        Some(Seq::empty())
    } else if p[0] == '\\' {
        if p.len() >= 2 {
            match like_literal(p.skip(2)) {
                Some(r) => Some(seq![p[1]] + r),
                None => None,
            }
        } else {
            None
        }
    } else if p[0] == '%' || p[0] == '_' {
        None
    } else {
        match like_literal(p.drop_first()) {
            Some(r) => Some(seq![p[0]] + r),
            None => None,
        }
    }
}

proof fn lemma_like_escape_back(s: Seq<char>)
    requires
        s.len() > 0,
    ensures
        like_escape_spec(s) == like_escape_spec(s.drop_last()) + like_escape_char(s.last()),
{
    let d = like_escape_spec(s.drop_last());
    if like_special(s.last()) {
        assert(d.push('\\').push(s.last()) =~= d + seq!['\\', s.last()]);
    } else {
        assert(d.push(s.last()) =~= d + seq![s.last()]);
    }
}

proof fn lemma_like_escape_front(s: Seq<char>)
    requires
        s.len() > 0,
    ensures
        like_escape_spec(s) == like_escape_char(s[0]) + like_escape_spec(s.drop_first()),
    decreases s.len(),
{
    lemma_like_escape_back(s);
    if s.len() == 1 {
        assert(s.drop_last() =~= Seq::<char>::empty());
        assert(s.drop_first() =~= Seq::<char>::empty());
        assert(like_escape_spec(Seq::<char>::empty()) == Seq::<char>::empty());
        assert(s.last() == s[0]);
        assert(Seq::<char>::empty() + like_escape_char(s[0]) =~= like_escape_char(s[0]));
        assert(like_escape_char(s[0]) + Seq::<char>::empty() =~= like_escape_char(s[0]));
    } else {
        let d = s.drop_last();
        let f = s.drop_first();
        lemma_like_escape_front(d);
        lemma_like_escape_back(f);
        assert(d.drop_first() =~= f.drop_last());
        assert(f.last() == s.last());
        assert(d[0] == s[0]);
        assert(like_escape_spec(s) =~= like_escape_char(s[0]) + like_escape_spec(f));
    }
}

/// An escaped search value matches itself and nothing else: read back as a
/// `LIKE` pattern it is exactly the text the operator typed, with no
/// wildcard left in it.
pub proof fn law_like_escape_matches_itself(s: Seq<char>)
    ensures
        like_literal(like_escape_spec(s)) == Some(s),
    decreases s.len(),
{
    if s.len() == 0 {
        assert(like_escape_spec(s) =~= Seq::<char>::empty());
    } else {
        lemma_like_escape_front(s);
        law_like_escape_matches_itself(s.drop_first());
        let rest = like_escape_spec(s.drop_first());
        let p = like_escape_spec(s);
        let c = s[0];
        if like_special(c) {
            assert(p[0] == '\\');
            assert(p[1] == c);
            assert(p.skip(2) =~= rest);
        } else {
            assert(p[0] == c);
            assert(p.drop_first() =~= rest);
        }
        assert(seq![c] + s.drop_first() =~= s);
    }
}

} // verus!

verus! {

// ── the worlds of the graph ─────────────────────────────────────────────────

/// The Unicode lower case of a text, as `str::to_lowercase` gives it.
pub uninterp spec fn unicode_lower(s: Seq<char>) -> Seq<char>;

/// `str::to_lowercase`: the text in Unicode lower case.
#[verifier::external_body]
fn to_lowercase(s: &str) -> (r: String)
    ensures
        r@ == unicode_lower(s@),
{
    s.to_lowercase()
}

/// One (Minecraft version, loader) world of the registry, and how many
/// artifact rows fall in it.
pub struct GraphSlice {
    pub mc_version: String,
    pub loader: String,
    pub artifacts: i64,
}

impl View for GraphSlice {
    type V = (Seq<char>, Seq<char>, i64);

    open spec fn view(&self) -> (Seq<char>, Seq<char>, i64) {
        (self.mc_version@, self.loader@, self.artifacts)
    }
}

/// The Minecraft versions of an `mc_versions` cell, as decoding reads them
/// (a cell that is not a JSON array of strings holds none).
pub open spec fn cell_versions(raw: Option<Seq<char>>) -> Seq<Seq<char>> {
    match raw {
        Some(s) => match json_string_list(s) {
            Some(l) => l,
            None => Seq::empty(),
        },
        None => Seq::empty(),
    }
}

/// A row of the artifact/target listing, as plain values: the artifact's
/// `mc_versions` cell and one loader it targets.
pub open spec fn target_rows(rows: Seq<(Option<String>, String)>) -> Seq<(Option<Seq<char>>, Seq<char>)> {
    rows.map_values(|r: (Option<String>, String)| (match r.0 { Some(s) => Some(s@), None => None }, r.1@))
}

/// How many times the world (`mc`, `loader`) occurs in the rows: once for
/// each row whose loader, lower-cased, is `loader`, per time its cell names
/// `mc`.
pub open spec fn slice_count(rows: Seq<(Option<Seq<char>>, Seq<char>)>, mc: Seq<char>, loader: Seq<char>) -> nat
    decreases rows.len(),
{
    if rows.len() == 0 {
        0
    } else {
        slice_count(rows.drop_last(), mc, loader) + if unicode_lower(rows.last().1) == loader {
            cell_versions(rows.last().0).to_multiset().count(mc)
        } else {
            0
        }
    }
}

/// A count as an `i64` holds it, stopping at the largest.
pub open spec fn saturated(n: nat) -> i64 {
    if n <= 0x7fff_ffff_ffff_ffff {
        n as i64
    } else {
        0x7fff_ffff_ffff_ffff
    }
}

/// The order worlds are listed in: the busiest first; between equally busy
/// ones the newer Minecraft version, then the loader's name.
pub open spec fn slice_before(a: (Seq<char>, Seq<char>, i64), b: (Seq<char>, Seq<char>, i64)) -> bool {
    ||| a.2 > b.2
    ||| a.2 == b.2 && key_lt(mc_key(b.0), mc_key(a.0))
    ||| a.2 == b.2 && mc_key(a.0) == mc_key(b.0) && lex_lt(a.1, b.1)
}

proof fn lemma_slice_order(a: (Seq<char>, Seq<char>, i64), b: (Seq<char>, Seq<char>, i64), c: (Seq<char>, Seq<char>, i64))
    ensures
        !slice_before(a, a),
        slice_before(a, b) ==> !slice_before(b, a),
        slice_before(a, b) && slice_before(b, c) ==> slice_before(a, c),
{
    lemma_key_asymmetric(mc_key(a.0), mc_key(b.0));
    lemma_key_asymmetric(mc_key(b.0), mc_key(a.0));
    lemma_lex_irreflexive(a.1);
    lemma_lex_asymmetric(a.1, b.1);
    if slice_before(a, b) && slice_before(b, c) {
        if key_lt(mc_key(b.0), mc_key(a.0)) && key_lt(mc_key(c.0), mc_key(b.0)) {
            lemma_key_transitive(mc_key(c.0), mc_key(b.0), mc_key(a.0));
        }
        if lex_lt(a.1, b.1) && lex_lt(b.1, c.1) {
            lemma_lex_transitive(a.1, b.1, c.1);
        }
    }
}

proof fn lemma_nothing_counted(m: Seq<char>)
    ensures
        Seq::<Seq<char>>::empty().to_multiset().count(m) == 0,
{
    vstd::seq_lib::to_multiset_contains(Seq::<Seq<char>>::empty(), m);
}

/// The running count while the rows before `i` are counted and, of row `i`
/// (whose loader is `low`), the versions in `seen`.
spec fn running(
    rv: Seq<(Option<Seq<char>>, Seq<char>)>,
    i: int,
    low: Seq<char>,
    seen: Seq<Seq<char>>,
    mc: Seq<char>,
    loader: Seq<char>,
) -> nat {
    slice_count(rv.take(i), mc, loader) + if loader == low {
        seen.to_multiset().count(mc)
    } else {
        0
    }
}

/// What the tally holds: each world once, with its running count, and every
/// world counted so far.
spec fn tally_ok(
    counts: Seq<(String, String, i64)>,
    rv: Seq<(Option<Seq<char>>, Seq<char>)>,
    i: int,
    low: Seq<char>,
    seen: Seq<Seq<char>>,
) -> bool {
    &&& forall|k: int|
        0 <= k < counts.len() ==> {
            &&& (#[trigger] counts[k]).2 == saturated(running(rv, i, low, seen, counts[k].0@, counts[k].1@))
            &&& running(rv, i, low, seen, counts[k].0@, counts[k].1@) > 0
        }
    &&& forall|k1: int, k2: int|
        0 <= k1 < k2 < counts.len() ==> ((#[trigger] counts[k1]).0@, counts[k1].1@) != (
            (#[trigger] counts[k2]).0@,
            counts[k2].1@,
        )
    &&& forall|mc: Seq<char>, loader: Seq<char>|
        #[trigger] running(rv, i, low, seen, mc, loader) > 0 ==> exists|k: int|
            0 <= k < counts.len() && (#[trigger] counts[k]).0@ == mc && counts[k].1@ == loader
}

/// Count one more occurrence of the world (`mc`, `low`).
fn bump(
    counts: &mut Vec<(String, String, i64)>,
    mc: &String,
    low: &String,
    Ghost(rv): Ghost<Seq<(Option<Seq<char>>, Seq<char>)>>,
    Ghost(i): Ghost<int>,
    Ghost(seen): Ghost<Seq<Seq<char>>>,
)
    requires
        tally_ok(old(counts)@, rv, i, low@, seen),
    ensures
        tally_ok(final(counts)@, rv, i, low@, seen.push(mc@)),
{
    let ghost seen2 = seen.push(mc@);
    proof {
        assert forall|m: Seq<char>, l: Seq<char>|
            #[trigger] running(rv, i, low@, seen2, m, l) == running(rv, i, low@, seen, m, l) + if (m, l) == (
                mc@,
                low@,
            ) {
                1nat
            } else {
                0nat
            } by {
            vstd::seq_lib::to_multiset_build(seen, mc@);
        }
    }
    let mut k: usize = 0;
    while k < counts.len()
        invariant
            k <= counts@.len(),
            counts@ == old(counts)@,
            forall|m: int| 0 <= m < k ==> ((#[trigger] counts@[m]).0@, counts@[m].1@) != (mc@, low@),
        ensures
            k <= counts@.len(),
            counts@ == old(counts)@,
            forall|m: int| 0 <= m < k ==> ((#[trigger] counts@[m]).0@, counts@[m].1@) != (mc@, low@),
            k < counts@.len() ==> (counts@[k as int].0@, counts@[k as int].1@) == (mc@, low@),
        decreases counts@.len() - k,
    {
        if counts[k].0 == *mc && counts[k].1 == *low {
            break;
        }
        k += 1;
    }
    let ghost before = counts@;
    if k < counts.len() {
        let c = counts[k].2;
        let next: i64 = if c < 0x7fff_ffff_ffff_ffff { c + 1 } else { c };
        let entry = (counts[k].0.clone(), counts[k].1.clone(), next);
        counts.set(k, entry);
        proof {
            let after = counts@;
            assert forall|m: int| 0 <= m < after.len() implies {
                &&& (#[trigger] after[m]).2 == saturated(running(rv, i, low@, seen2, after[m].0@, after[m].1@))
                &&& running(rv, i, low@, seen2, after[m].0@, after[m].1@) > 0
            } by {
                if m != k {
                    assert(after[m] == before[m]);
                    assert((before[m].0@, before[m].1@) != (mc@, low@)) by {
                        if m < k {
                        } else {
                            assert((before[k as int].0@, before[k as int].1@) == (mc@, low@));
                        }
                    }
                }
            }
            assert forall|k1: int, k2: int| 0 <= k1 < k2 < after.len() implies ((#[trigger] after[k1]).0@, after[k1].1@) != (
                (#[trigger] after[k2]).0@,
                after[k2].1@,
            ) by {
                assert((after[k1].0@, after[k1].1@) == (before[k1].0@, before[k1].1@));
                assert((after[k2].0@, after[k2].1@) == (before[k2].0@, before[k2].1@));
            }
            assert forall|m: Seq<char>, l: Seq<char>|
                #[trigger] running(rv, i, low@, seen2, m, l) > 0 implies exists|q: int|
                    0 <= q < after.len() && (#[trigger] after[q]).0@ == m && after[q].1@ == l by {
                if (m, l) == (mc@, low@) {
                    assert(after[k as int].0@ == m && after[k as int].1@ == l);
                } else {
                    assert(running(rv, i, low@, seen, m, l) > 0);
                    let q = choose|q: int| 0 <= q < before.len() && (#[trigger] before[q]).0@ == m && before[q].1@ == l;
                    assert(after[q].0@ == m && after[q].1@ == l);
                }
            }
        }
    } else {
        proof {
            // a world not in the tally has not been counted yet
            if running(rv, i, low@, seen, mc@, low@) > 0 {
                let q = choose|q: int| 0 <= q < before.len() && (#[trigger] before[q]).0@ == mc@ && before[q].1@ == low@;
                assert(((before[q]).0@, before[q].1@) != (mc@, low@));
            }
        }
        counts.push((mc.clone(), low.clone(), 1));
        proof {
            let after = counts@;
            let n = before.len() as int;
            assert forall|m: int| 0 <= m < after.len() implies {
                &&& (#[trigger] after[m]).2 == saturated(running(rv, i, low@, seen2, after[m].0@, after[m].1@))
                &&& running(rv, i, low@, seen2, after[m].0@, after[m].1@) > 0
            } by {
                if m < n {
                    assert(after[m] == before[m]);
                    assert((before[m].0@, before[m].1@) != (mc@, low@));
                }
            }
            assert forall|k1: int, k2: int| 0 <= k1 < k2 < after.len() implies ((#[trigger] after[k1]).0@, after[k1].1@) != (
                (#[trigger] after[k2]).0@,
                after[k2].1@,
            ) by {
                assert(after[k1] == before[k1]);
                if k2 < n {
                    assert(after[k2] == before[k2]);
                } else {
                    assert((before[k1].0@, before[k1].1@) != (mc@, low@));
                }
            }
            assert forall|m: Seq<char>, l: Seq<char>|
                #[trigger] running(rv, i, low@, seen2, m, l) > 0 implies exists|q: int|
                    0 <= q < after.len() && (#[trigger] after[q]).0@ == m && after[q].1@ == l by {
                if (m, l) == (mc@, low@) {
                    assert(after[n].0@ == m && after[n].1@ == l);
                } else {
                    assert(running(rv, i, low@, seen, m, l) > 0);
                    let q = choose|q: int| 0 <= q < before.len() && (#[trigger] before[q]).0@ == m && before[q].1@ == l;
                    assert(after[q] == before[q]);
                }
            }
        }
    }
}

/// A world ready to be placed: its key and loader characters alongside.
struct SliceItem {
    key: Vec<i64>,
    loader: Vec<char>,
    slice: GraphSlice,
}

spec fn slice_item_ok(x: SliceItem) -> bool {
    x.key@ == mc_key(x.slice.mc_version@) && x.loader@ == x.slice.loader@
}

fn slice_less(a: &SliceItem, b: &SliceItem) -> (r: bool)
    requires
        slice_item_ok(*a),
        slice_item_ok(*b),
    ensures
        r == slice_before(a.slice@, b.slice@),
{
    a.slice.artifacts > b.slice.artifacts || (a.slice.artifacts == b.slice.artifacts && (keys_less(&b.key, &a.key) || (
    keys_equal(&a.key, &b.key) && lex_less(&a.loader, &b.loader))))
}

/// Place a world among worlds held in listing order, after every one it
/// does not go before.
fn place(out: &mut Vec<SliceItem>, x: SliceItem)
    requires
        slice_item_ok(x),
        forall|o: int| 0 <= o < old(out)@.len() ==> slice_item_ok(#[trigger] old(out)@[o]),
        forall|o1: int, o2: int|
            0 <= o1 < o2 < old(out)@.len() ==> !slice_before(
                (#[trigger] old(out)@[o2]).slice@,
                (#[trigger] old(out)@[o1]).slice@,
            ),
    ensures
        exists|p: int| 0 <= p <= old(out)@.len() && final(out)@ == old(out)@.insert(p, x),
        forall|o: int| 0 <= o < final(out)@.len() ==> slice_item_ok(#[trigger] final(out)@[o]),
        forall|o1: int, o2: int|
            0 <= o1 < o2 < final(out)@.len() ==> !slice_before(
                (#[trigger] final(out)@[o2]).slice@,
                (#[trigger] final(out)@[o1]).slice@,
            ),
{
    let ghost xv = x.slice@;
    let mut p: usize = 0;
    while p < out.len() && !slice_less(&x, &out[p])
        invariant
            p <= out@.len(),
            slice_item_ok(x),
            xv == x.slice@,
            forall|o: int| 0 <= o < out@.len() ==> slice_item_ok(#[trigger] out@[o]),
            forall|o: int| 0 <= o < p ==> !slice_before(xv, (#[trigger] out@[o]).slice@),
        decreases out@.len() - p,
    {
        p += 1;
    }
    let ghost before = out@;
    let ghost xs = x;
    out.insert(p, x);
    proof {
        let s = out@;
        assert(s == before.insert(p as int, xs));
        assert(s[p as int] == xs);
        assert forall|o1: int, o2: int| 0 <= o1 < o2 < s.len() implies !slice_before(
            (#[trigger] s[o2]).slice@,
            (#[trigger] s[o1]).slice@,
        ) by {
            if o2 < p {
                assert(s[o1] == before[o1] && s[o2] == before[o2]);
            } else if o2 == p {
                assert(s[o1] == before[o1]);
            } else if o1 > p {
                assert(s[o1] == before[o1 - 1] && s[o2] == before[o2 - 1]);
            } else if o1 == p {
                assert(s[o2] == before[o2 - 1]);
                // x goes before the world at p, which no later world goes before
                assert(slice_before(xv, before[p as int].slice@));
                lemma_slice_order(before[o2 - 1].slice@, xv, before[p as int].slice@);
                if o2 - 1 > p {
                    assert(!slice_before(before[o2 - 1].slice@, before[p as int].slice@));
                } else {
                    lemma_slice_order(xv, before[p as int].slice@, xv);
                }
            } else {
                assert(s[o1] == before[o1] && s[o2] == before[o2 - 1]);
            }
        }
        assert forall|o: int| 0 <= o < s.len() implies slice_item_ok(#[trigger] s[o]) by {
            if o < p {
                assert(s[o] == before[o]);
            } else if o > p {
                assert(s[o] == before[o - 1]);
            }
        }
    }
}

/// A tally entry as plain values.
spec fn count_view(c: (String, String, i64)) -> (Seq<char>, Seq<char>, i64) {
    (c.0@, c.1@, c.2)
}

/// Each placed world is one of the first `k` tally entries.
spec fn from_counts(out: Seq<SliceItem>, cs: Seq<(String, String, i64)>, k: int) -> bool {
    forall|o: int| 0 <= o < out.len() ==> exists|m: int| 0 <= m < k && (#[trigger] out[o]).slice@ == count_view(cs[m])
}

/// Each of the first `k` tally entries is placed.
spec fn covers(out: Seq<SliceItem>, cs: Seq<(String, String, i64)>, k: int) -> bool {
    forall|m: int|
        #![trigger cs[m]]
        0 <= m < k ==> exists|o: int| 0 <= o < out.len() && (#[trigger] out[o]).slice@ == count_view(cs[m])
}

/// No world is placed twice.
spec fn distinct_items(out: Seq<SliceItem>) -> bool {
    forall|o1: int, o2: int|
        0 <= o1 < o2 < out.len() ==> ((#[trigger] out[o1]).slice@.0, out[o1].slice@.1) != (
            (#[trigger] out[o2]).slice@.0,
            out[o2].slice@.1,
        )
}

/// No world is tallied twice.
spec fn distinct_counts(cs: Seq<(String, String, i64)>) -> bool {
    forall|k1: int, k2: int|
        0 <= k1 < k2 < cs.len() ==> ((#[trigger] cs[k1]).0@, cs[k1].1@) != ((#[trigger] cs[k2]).0@, cs[k2].1@)
}

proof fn lemma_placed_from(before: Seq<SliceItem>, s: Seq<SliceItem>, p: int, xs: SliceItem, cs: Seq<(String, String, i64)>, k: int)
    requires
        0 <= k < cs.len(),
        0 <= p <= before.len(),
        s == before.insert(p, xs),
        xs.slice@ == count_view(cs[k]),
        from_counts(before, cs, k),
    ensures
        from_counts(s, cs, k + 1),
{
    assert forall|o: int| 0 <= o < s.len() implies exists|m: int|
        0 <= m < k + 1 && (#[trigger] s[o]).slice@ == count_view(cs[m]) by {
        if o < p {
            assert(s[o] == before[o]);
        } else if o > p {
            assert(s[o] == before[o - 1]);
        } else {
            assert(s[o] == xs);
        }
    }
}

proof fn lemma_placed_covers(before: Seq<SliceItem>, s: Seq<SliceItem>, p: int, xs: SliceItem, cs: Seq<(String, String, i64)>, k: int)
    requires
        0 <= k < cs.len(),
        0 <= p <= before.len(),
        s == before.insert(p, xs),
        xs.slice@ == count_view(cs[k]),
        covers(before, cs, k),
    ensures
        covers(s, cs, k + 1),
{
    assert forall|m: int| #![trigger cs[m]] 0 <= m < k + 1 implies exists|o: int|
        0 <= o < s.len() && (#[trigger] s[o]).slice@ == count_view(cs[m]) by {
        if m < k {
            let o = choose|o: int| 0 <= o < before.len() && (#[trigger] before[o]).slice@ == count_view(cs[m]);
            if o < p {
                assert(s[o] == before[o]);
            } else {
                assert(s[o + 1] == before[o]);
            }
        } else {
            assert(s[p] == xs);
        }
    }
}

proof fn lemma_placed_distinct(before: Seq<SliceItem>, s: Seq<SliceItem>, p: int, xs: SliceItem, cs: Seq<(String, String, i64)>, k: int)
    requires
        0 <= k < cs.len(),
        0 <= p <= before.len(),
        s == before.insert(p, xs),
        xs.slice@ == count_view(cs[k]),
        from_counts(before, cs, k),
        distinct_items(before),
        distinct_counts(cs),
    ensures
        distinct_items(s),
{
    // the new world is none of those placed before it
    assert forall|o: int| 0 <= o < before.len() implies ((#[trigger] before[o]).slice@.0, before[o].slice@.1) != (
        xs.slice@.0,
        xs.slice@.1,
    ) by {
        let m = choose|m: int| 0 <= m < k && (#[trigger] before[o]).slice@ == count_view(cs[m]);
        assert(((cs[m]).0@, cs[m].1@) != ((cs[k]).0@, cs[k].1@));
    }
    assert(s[p] == xs);
    assert forall|o1: int, o2: int| 0 <= o1 < o2 < s.len() implies ((#[trigger] s[o1]).slice@.0, s[o1].slice@.1) != (
        (#[trigger] s[o2]).slice@.0,
        s[o2].slice@.1,
    ) by {
        if o2 < p {
            assert(s[o1] == before[o1] && s[o2] == before[o2]);
        } else if o2 == p {
            assert(s[o1] == before[o1]);
        } else if o1 > p {
            assert(s[o1] == before[o1 - 1] && s[o2] == before[o2 - 1]);
        } else if o1 == p {
            assert(s[o2] == before[o2 - 1]);
        } else {
            assert(s[o1] == before[o1] && s[o2] == before[o2 - 1]);
        }
    }
}

/// Count the worlds the rows fall in.
fn tally_worlds(rows: &Vec<(Option<String>, String)>) -> (counts: Vec<(String, String, i64)>)
    ensures
        tally_ok(counts@, target_rows(rows@), rows@.len() as int, Seq::empty(), Seq::empty()),
{
    let ghost rv = target_rows(rows@);
    let mut counts: Vec<(String, String, i64)> = Vec::new();
    let mut i: usize = 0;
    proof {
        assert forall|m: Seq<char>, l: Seq<char>| #[trigger] running(rv, 0, Seq::empty(), Seq::empty(), m, l) == 0 by {
            assert(rv.take(0).len() == 0);
            lemma_nothing_counted(m);
        }
    }
    while i < rows.len()
        invariant
            i <= rows@.len(),
            rv == target_rows(rows@),
            tally_ok(counts@, rv, i as int, Seq::empty(), Seq::empty()),
        decreases rows@.len() - i,
    {
        let low = to_lowercase(rows[i].1.as_str());
        let versions = decode_mc(rows[i].0.clone());
        proof {
            // a fresh row: nothing of it counted under any loader
            assert forall|m: Seq<char>, l: Seq<char>|
                #[trigger] running(rv, i as int, low@, Seq::empty(), m, l) == running(
                    rv,
                    i as int,
                    Seq::empty(),
                    Seq::empty(),
                    m,
                    l,
                ) by {
                lemma_nothing_counted(m);
            }
            assert(texts(versions@).take(0) =~= Seq::<Seq<char>>::empty());
        }
        let mut j: usize = 0;
        while j < versions.len()
            invariant
                i < rows@.len(),
                j <= versions@.len(),
                rv == target_rows(rows@),
                tally_ok(counts@, rv, i as int, low@, texts(versions@).take(j as int)),
            decreases versions@.len() - j,
        {
            proof {
                assert(texts(versions@).take(j + 1) =~= texts(versions@).take(j as int).push(versions@[j as int]@));
            }
            bump(&mut counts, &versions[j], &low, Ghost(rv), Ghost(i as int), Ghost(texts(versions@).take(j as int)));
            j += 1;
        }
        proof {
            let row = rv[i as int];
            assert(row == (match rows@[i as int].0 { Some(s) => Some(s@), None => None }, rows@[i as int].1@));
            assert(texts(versions@).take(versions@.len() as int) =~= texts(versions@));
            assert(rv.take(i + 1).drop_last() =~= rv.take(i as int));
            assert(rv.take(i + 1).last() == row);
            assert(texts(versions@).to_multiset() == cell_versions(row.0).to_multiset());
            assert forall|m: Seq<char>, l: Seq<char>|
                #[trigger] running(rv, i + 1, Seq::empty(), Seq::empty(), m, l) == running(
                    rv,
                    i as int,
                    low@,
                    texts(versions@),
                    m,
                    l,
                ) by {
                lemma_nothing_counted(m);
            }
        }
        i += 1;
    }
    counts
}

/// The tally's worlds in listing order.
fn order_worlds(counts: &Vec<(String, String, i64)>) -> (out: Vec<SliceItem>)
    requires
        distinct_counts(counts@),
    ensures
        from_counts(out@, counts@, counts@.len() as int),
        covers(out@, counts@, counts@.len() as int),
        distinct_items(out@),
        forall|o1: int, o2: int|
            0 <= o1 < o2 < out@.len() ==> !slice_before((#[trigger] out@[o2]).slice@, (#[trigger] out@[o1]).slice@),
{
    let ghost cs = counts@;
    let mut out: Vec<SliceItem> = Vec::new();
    let mut k: usize = 0;
    while k < counts.len()
        invariant
            k <= counts@.len(),
            counts@ == cs,
            distinct_counts(cs),
            forall|o: int| 0 <= o < out@.len() ==> slice_item_ok(#[trigger] out@[o]),
            from_counts(out@, cs, k as int),
            covers(out@, cs, k as int),
            distinct_items(out@),
            forall|o1: int, o2: int|
                0 <= o1 < o2 < out@.len() ==> !slice_before((#[trigger] out@[o2]).slice@, (#[trigger] out@[o1]).slice@),
        decreases counts@.len() - k,
    {
        let (mc, loader, n) = (counts[k].0.clone(), counts[k].1.clone(), counts[k].2);
        let key = mc_version_key(mc.as_str());
        let lc = chars_of(loader.as_str());
        let x = SliceItem { key, loader: lc, slice: GraphSlice { mc_version: mc, loader, artifacts: n } };
        let ghost before = out@;
        let ghost xs = x;
        place(&mut out, x);
        proof {
            let p = choose|p: int| 0 <= p <= before.len() && out@ == before.insert(p, xs);
            lemma_placed_from(before, out@, p, xs, cs, k as int);
            lemma_placed_covers(before, out@, p, xs, cs, k as int);
            lemma_placed_distinct(before, out@, p, xs, cs, k as int);
        }
        k += 1;
    }
    out
}

/// The worlds of the graph, each with how many artifact rows fall in it,
/// busiest first (ties: the newer Minecraft version, then the loader's
/// name), so the default the panel picks is stable. `rows` are the artifact
/// rows that name their Minecraft versions, one per loader target other
/// than `any`: the cell, and the target, which counts in lower case.
/// Counts stop at `i64::MAX`.
pub fn graph_slices(rows: &Vec<(Option<String>, String)>) -> (r: Vec<GraphSlice>)
    ensures
        forall|i: int|
            0 <= i < r@.len() ==> {
                &&& (#[trigger] r@[i]).artifacts == saturated(
                    slice_count(target_rows(rows@), r@[i].mc_version@, r@[i].loader@),
                )
                &&& slice_count(target_rows(rows@), r@[i].mc_version@, r@[i].loader@) > 0
            },
        forall|i: int, j: int|
            0 <= i < j < r@.len() ==> ((#[trigger] r@[i]).mc_version@, r@[i].loader@) != (
                (#[trigger] r@[j]).mc_version@,
                r@[j].loader@,
            ),
        forall|mc: Seq<char>, loader: Seq<char>|
            #[trigger] slice_count(target_rows(rows@), mc, loader) > 0 ==> exists|i: int|
                0 <= i < r@.len() && (#[trigger] r@[i]).mc_version@ == mc && r@[i].loader@ == loader,
        forall|i: int, j: int| 0 <= i < j < r@.len() ==> !slice_before((#[trigger] r@[j])@, (#[trigger] r@[i])@),
{
    let ghost rv = target_rows(rows@);
    let counts = tally_worlds(rows);
    let ghost cs = counts@;
    let ghost n = rows@.len() as int;
    proof {
        assert(rv.take(n) =~= rv);
    }
    let mut out = order_worlds(&counts);
    // hand the worlds back in order
    let ghost so = out@;
    let mut back: Vec<GraphSlice> = Vec::new();
    while out.len() > 0
        invariant
            out@.len() + back@.len() == so.len(),
            forall|o: int| 0 <= o < out@.len() ==> out@[o] == so[o],
            forall|o: int| 0 <= o < back@.len() ==> back@[o]@ == so[so.len() - 1 - o].slice@,
        decreases out@.len(),
    {
        let x = out.pop().unwrap();
        back.push(x.slice);
    }
    let mut r: Vec<GraphSlice> = Vec::new();
    let mut q: usize = back.len();
    while q > 0
        invariant
            q <= back@.len() == so.len(),
            forall|o: int| 0 <= o < back@.len() ==> back@[o]@ == so[so.len() - 1 - o].slice@,
            r@.len() == so.len() - q,
            forall|o: int| 0 <= o < r@.len() ==> r@[o]@ == so[o].slice@,
        decreases q,
    {
        q -= 1;
        let g = &back[q];
        r.push(GraphSlice { mc_version: g.mc_version.clone(), loader: g.loader.clone(), artifacts: g.artifacts });
    }
    proof {
        assert forall|o: int| 0 <= o < r@.len() implies {
            &&& (#[trigger] r@[o]).artifacts == saturated(slice_count(rv, r@[o].mc_version@, r@[o].loader@))
            &&& slice_count(rv, r@[o].mc_version@, r@[o].loader@) > 0
        } by {
            let m = choose|m: int| 0 <= m < cs.len() && (#[trigger] so[o]).slice@ == count_view(cs[m]);
            assert(cs[m].2 == saturated(running(rv, n, Seq::empty(), Seq::empty(), cs[m].0@, cs[m].1@)));
            assert(running(rv, n, Seq::empty(), Seq::empty(), cs[m].0@, cs[m].1@) > 0);
            lemma_nothing_counted(cs[m].0@);
        }
        assert forall|i: int, j: int| 0 <= i < j < r@.len() implies ((#[trigger] r@[i]).mc_version@, r@[i].loader@) != (
            (#[trigger] r@[j]).mc_version@,
            r@[j].loader@,
        ) by {
            assert(r@[i]@ == so[i].slice@ && r@[j]@ == so[j].slice@);
        }
        assert forall|mc: Seq<char>, loader: Seq<char>|
            #[trigger] slice_count(rv, mc, loader) > 0 implies exists|i: int|
                0 <= i < r@.len() && (#[trigger] r@[i]).mc_version@ == mc && r@[i].loader@ == loader by {
            lemma_nothing_counted(mc);
            assert(running(rv, n, Seq::empty(), Seq::empty(), mc, loader) == slice_count(rv, mc, loader));
            let m = choose|m: int| 0 <= m < cs.len() && (#[trigger] cs[m]).0@ == mc && cs[m].1@ == loader;
            let o = choose|o: int| 0 <= o < so.len() && (#[trigger] so[o]).slice@ == count_view(cs[m]);
            assert(r@[o]@ == so[o].slice@);
        }
        assert forall|i: int, j: int| 0 <= i < j < r@.len() implies !slice_before((#[trigger] r@[j])@, (#[trigger] r@[i])@) by {
            assert(r@[i]@ == so[i].slice@ && r@[j]@ == so[j].slice@);
        }
    }
    r
}

} // verus!

verus! {

/// The requested ids a lookup still has to ask about: those not already
/// known, in the order requested.
pub open spec fn unknown_ids(ids: Seq<Seq<char>>, known: Seq<Seq<char>>) -> Seq<Seq<char>>
    decreases ids.len(),
{
    if ids.len() == 0 {
        Seq::empty()
    } else if known.contains(ids.last()) {
        unknown_ids(ids.drop_last(), known)
    } else {
        unknown_ids(ids.drop_last(), known).push(ids.last())
    }
}

/// The requested ids the cache did not answer for, which are the ones to ask
/// Modrinth about.
pub fn missing_ids(ids: &Vec<String>, known: &Vec<String>) -> (r: Vec<String>)
    ensures
        texts(r@) == unknown_ids(texts(ids@), texts(known@)),
{
    let mut r: Vec<String> = Vec::new();
    let mut i: usize = 0;
    while i < ids.len()
        invariant
            i <= ids@.len(),
            texts(r@) == unknown_ids(texts(ids@).take(i as int), texts(known@)),
        decreases ids@.len() - i,
    {
        let mut found = false;
        let mut k: usize = 0;
        while k < known.len()
            invariant
                k <= known@.len(),
                i < ids@.len(),
                found == exists|m: int| 0 <= m < k && known@[m]@ == ids@[i as int]@,
            decreases known@.len() - k,
        {
            if known[k] == ids[i] {
                found = true;
            }
            k += 1;
        }
        proof {
            let t = texts(ids@).take(i + 1);
            assert(t.drop_last() =~= texts(ids@).take(i as int));
            assert(t.last() == ids@[i as int]@);
            if found {
                let m = choose|m: int| 0 <= m < known@.len() && known@[m]@ == ids@[i as int]@;
                assert(texts(known@)[m] == ids@[i as int]@);
            } else {
                assert forall|m: int| 0 <= m < texts(known@).len() implies texts(known@)[m] != ids@[i as int]@ by {
                    assert(texts(known@)[m] == known@[m]@);
                }
            }
        }
        if !found {
            let ghost before = r@;
            r.push(ids[i].clone());
            proof {
                assert(texts(r@) =~= texts(before).push(ids@[i as int]@));
            }
        }
        i += 1;
    }
    proof {
        assert(texts(ids@).take(ids@.len() as int) =~= texts(ids@));
    }
    r
}

} // verus!
