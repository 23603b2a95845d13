//! The mirror's cache of artifacts: a jar fetched from elsewhere is stored
//! under the lowercase hex of its SHA-1, the same name a pack's `smrt_cache`
//! source refers to it by, and the cache is listed with the packs using each
//! artifact.
use vstd::prelude::*;
use sha1::Digest;

verus! {

/// The SHA-1 digest of a byte string.
pub uninterp spec fn sha1_digest(bytes: Seq<u8>) -> Seq<u8>;

/// The lowercase hex digit for a value below sixteen.
pub open spec fn hex_digit(n: int) -> char {
    if n < 10 {
        (n + 48) as char
    } else {
        (n + 87) as char
    }
}

/// Lowercase hex of a byte string: each byte as two digits, high half first.
pub open spec fn hex_lower(bytes: Seq<u8>) -> Seq<char>
    decreases bytes.len(),
{
    if bytes.len() == 0 {
        seq![]
    } else {
        seq![hex_digit(bytes[0] as int / 16), hex_digit(bytes[0] as int % 16)] + hex_lower(bytes.skip(1))
    }
}

/// Lowercase hex has two digits per byte.
pub proof fn lemma_hex_lower_len(bytes: Seq<u8>)
    ensures
        hex_lower(bytes).len() == 2 * bytes.len(),
    decreases bytes.len(),
{
    if bytes.len() > 0 {
        lemma_hex_lower_len(bytes.skip(1));
    }
}

/// Lowercase hex is made of hexadecimal digits only.
proof fn lemma_hex_lower_digits(bytes: Seq<u8>)
    ensures
        forall|i: int|
            0 <= i < hex_lower(bytes).len() ==> {
                let c = #[trigger] hex_lower(bytes)[i];
                ('0' <= c <= '9') || ('a' <= c <= 'f')
            },
    decreases bytes.len(),
{
    if bytes.len() > 0 {
        lemma_hex_lower_digits(bytes.skip(1));
        let b = bytes[0] as int;
        let head = seq![hex_digit(b / 16), hex_digit(b % 16)];
        let rest = hex_lower(bytes.skip(1));
        assert forall|i: int| 0 <= i < hex_lower(bytes).len() implies {
            let c = #[trigger] hex_lower(bytes)[i];
            ('0' <= c <= '9') || ('a' <= c <= 'f')
        } by {
            assert(hex_lower(bytes) == head + rest);
            if i < 2 {
                assert(hex_lower(bytes)[i] == head[i]);
            } else {
                assert(hex_lower(bytes)[i] == rest[i - 2]);
            }
        }
    }
}

/// The value a lowercase hexadecimal digit stands for, or -1 for any other
/// character.
pub open spec fn lower_hex_value(c: char) -> int {
    if '0' <= c && c <= '9' {
        c as int - 48
    } else if 'a' <= c && c <= 'f' {
        c as int - 87
    } else {
        -1
    }
}

/// A content address reads back as its digest: byte `i` is written as two
/// lowercase hex digits at positions `2i` and `2i + 1`, the high half first.
pub proof fn law_hex_reads_back(bytes: Seq<u8>)
    ensures
        hex_lower(bytes).len() == 2 * bytes.len(),
        forall|i: int|
            0 <= i < bytes.len() ==> 0 <= lower_hex_value(#[trigger] hex_lower(bytes)[2 * i]) < 16
                && 0 <= lower_hex_value(hex_lower(bytes)[2 * i + 1]) < 16 && lower_hex_value(hex_lower(bytes)[2 * i])
                * 16 + lower_hex_value(hex_lower(bytes)[2 * i + 1]) == bytes[i],
    decreases bytes.len(),
{
    lemma_hex_lower_len(bytes);
    if bytes.len() > 0 {
        law_hex_reads_back(bytes.skip(1));
        let b = bytes[0] as int;
        let head = seq![hex_digit(b / 16), hex_digit(b % 16)];
        let rest = hex_lower(bytes.skip(1));
        assert(hex_lower(bytes) == head + rest);
        assert(lower_hex_value(hex_digit(b / 16)) == b / 16);
        assert(lower_hex_value(hex_digit(b % 16)) == b % 16);
        assert forall|i: int| 0 <= i < bytes.len() implies 0 <= lower_hex_value(#[trigger] hex_lower(bytes)[2 * i]) < 16
            && 0 <= lower_hex_value(hex_lower(bytes)[2 * i + 1]) < 16 && lower_hex_value(hex_lower(bytes)[2 * i])
            * 16 + lower_hex_value(hex_lower(bytes)[2 * i + 1]) == bytes[i] by {
            if i == 0 {
                assert(hex_lower(bytes)[0] == head[0]);
                assert(hex_lower(bytes)[1] == head[1]);
            } else {
                assert(hex_lower(bytes)[2 * i] == rest[2 * (i - 1)]);
                assert(hex_lower(bytes)[2 * i + 1] == rest[2 * (i - 1) + 1]);
                assert(bytes[i] == bytes.skip(1)[i - 1]);
                assert(rest[2 * (i - 1)] == hex_lower(bytes.skip(1))[2 * (i - 1)]);
            }
        }
    }
}

/// What the mirror stores a fetched artifact under is a name the rest of it
/// accepts as a cache hash: the lowercase hex of any twenty-byte digest is
/// forty hexadecimal digits.
pub proof fn law_content_address_is_a_cache_hash(digest: Seq<u8>)
    requires
        digest.len() == 20,
    ensures
        crate::authored::is_sha1_text(hex_lower(digest)),
{
    lemma_hex_lower_len(digest);
    lemma_hex_lower_digits(digest);
}

/// `sha1::Sha1::digest`: the digest of `bytes`, twenty bytes long (the
/// hasher's output size).
#[verifier::external_body]
fn sha1_of(bytes: &[u8]) -> (d: Vec<u8>)
    ensures
        d@ == sha1_digest(bytes@),
        d@.len() == 20,
{
    sha1::Sha1::digest(bytes).to_vec()
}

/// `hex::encode`: each byte as two lowercase hex digits, in order.
#[verifier::external_body]
fn hex_encode(bytes: &[u8]) -> (s: String)
    ensures
        s@ == hex_lower(bytes@),
{
    hex::encode(bytes)
}

/// The name a cached artifact is stored under: the lowercase hex of the
/// SHA-1 of its bytes, forty characters.
pub fn content_address(bytes: &[u8]) -> (r: String)
    ensures
        r@ == hex_lower(sha1_digest(bytes@)),
        r@.len() == 40,
        crate::authored::is_sha1_text(r@),
{
    let d = sha1_of(bytes);
    let r = hex_encode(d.as_slice());
    proof {
        law_content_address_is_a_cache_hash(d@);
    }
    r
}

} // verus!

verus! {

/// One pack's use of a cached artifact: the pack, and the name the pack
/// declares the file under.
pub struct CacheUse {
    pub pack_id: String,
    pub filename: String,
}

impl View for CacheUse {
    type V = (Seq<char>, Seq<char>);

    open spec fn view(&self) -> (Seq<char>, Seq<char>) {
        (self.pack_id@, self.filename@)
    }
}

/// A cached artifact, by content address and size, with the packs using it.
pub struct CacheUsageEntry {
    pub sha1: String,
    pub size_bytes: u64,
    pub uses: Vec<CacheUse>,
}

/// The uses found, each with the artifact it refers to, as plain values.
pub open spec fn found_uses(uses: Seq<(String, CacheUse)>) -> Seq<(Seq<char>, (Seq<char>, Seq<char>))> {
    uses.map_values(|u: (String, CacheUse)| (u.0@, u.1@))
}

/// The uses of the artifact `sha1`, in the order they were found.
pub open spec fn uses_of(uses: Seq<(Seq<char>, (Seq<char>, Seq<char>))>, sha1: Seq<char>) -> Seq<(Seq<char>, Seq<char>)>
    decreases uses.len(),
{
    if uses.len() == 0 {
        Seq::empty()
    } else if uses.last().0 == sha1 {
        uses_of(uses.drop_last(), sha1).push(uses.last().1)
    } else {
        uses_of(uses.drop_last(), sha1)
    }
}

/// The uses listed under the `i`-th artifact of an inventory: all of that
/// artifact's uses, handed to its first appearance (a repeat gets none).
pub open spec fn listed_uses(
    inventory: Seq<(String, u64)>,
    uses: Seq<(String, CacheUse)>,
    i: int,
) -> Seq<(Seq<char>, Seq<char>)> {
    if exists|j: int| 0 <= j < i && #[trigger] inventory[j].0@ == inventory[i].0@ {
        Seq::empty()
    } else {
        uses_of(found_uses(uses), inventory[i].0@)
    }
}

/// The uses of one artifact, in the order found.
fn collect_uses(uses: &Vec<(String, CacheUse)>, sha1: &String) -> (r: Vec<CacheUse>)
    ensures
        r@.map_values(|u: CacheUse| u@) == uses_of(found_uses(uses@), sha1@),
{
    let mut r: Vec<CacheUse> = Vec::new();
    let mut k: usize = 0;
    while k < uses.len()
        invariant
            k <= uses@.len(),
            r@.map_values(|u: CacheUse| u@) == uses_of(found_uses(uses@).take(k as int), sha1@),
        decreases uses@.len() - k,
    {
        let ghost before = r@;
        proof {
            let t = found_uses(uses@).take(k + 1);
            assert(t.drop_last() =~= found_uses(uses@).take(k as int));
            assert(t.last() == (uses@[k as int].0@, uses@[k as int].1@));
        }
        if uses[k].0 == *sha1 {
            let u = &uses[k].1;
            r.push(CacheUse { pack_id: u.pack_id.clone(), filename: u.filename.clone() });
            proof {
                assert(r@.map_values(|u: CacheUse| u@) =~= before.map_values(|u: CacheUse| u@).push(
                    uses@[k as int].1@,
                ));
            }
        }
        k += 1;
    }
    proof {
        assert(found_uses(uses@).take(uses@.len() as int) =~= found_uses(uses@));
    }
    r
}

/// Each cached artifact with the packs that use it, in inventory order. The
/// uses are gathered from every pack's declarations beforehand (`uses`: the
/// artifact each use refers to, and the use); an artifact nothing declares
/// is listed with no uses, which is what makes it an orphan.
pub fn cache_usage(inventory: &Vec<(String, u64)>, uses: &Vec<(String, CacheUse)>) -> (r: Vec<CacheUsageEntry>)
    ensures
        r@.len() == inventory@.len(),
        forall|i: int|
            0 <= i < r@.len() ==> {
                &&& (#[trigger] r@[i]).sha1@ == inventory@[i].0@
                &&& r@[i].size_bytes == inventory@[i].1
                &&& r@[i].uses@.map_values(|u: CacheUse| u@) == listed_uses(inventory@, uses@, i)
            },
{
    let mut r: Vec<CacheUsageEntry> = Vec::new();
    let mut i: usize = 0;
    while i < inventory.len()
        invariant
            i <= inventory@.len(),
            r@.len() == i,
            forall|m: int|
                0 <= m < i ==> {
                    &&& (#[trigger] r@[m]).sha1@ == inventory@[m].0@
                    &&& r@[m].size_bytes == inventory@[m].1
                    &&& r@[m].uses@.map_values(|u: CacheUse| u@) == listed_uses(inventory@, uses@, m)
                },
        decreases inventory@.len() - i,
    {
        let sha1 = &inventory[i].0;
        let mut seen_before = false;
        let mut j: usize = 0;
        while j < i
            invariant
                j <= i < inventory@.len(),
                *sha1 == inventory@[i as int].0,
                seen_before == exists|m: int| 0 <= m < j && #[trigger] inventory@[m].0@ == inventory@[i as int].0@,
            decreases i - j,
        {
            if inventory[j].0 == *sha1 {
                seen_before = true;
            }
            j += 1;
        }
        let found = if seen_before {
            Vec::new()
        } else {
            collect_uses(uses, sha1)
        };
        proof {
            if seen_before {
                assert(found@.map_values(|u: CacheUse| u@) =~= Seq::<(Seq<char>, Seq<char>)>::empty());
            }
        }
        r.push(CacheUsageEntry { sha1: sha1.clone(), size_bytes: inventory[i].1, uses: found });
        i += 1;
    }
    r
}

} // verus!
