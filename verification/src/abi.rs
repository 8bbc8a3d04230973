//! The call-encoding boundary: normalizing a function signature,
//! deriving its selector from the Keccak-256 hash, and laying out a
//! selector with word arguments as call input.

use vstd::prelude::*;
use vstd::string::{StrSliceExecFns, StringExecFns, StringSliceAdditionalSpecFns};
use crate::keccak::{keccak256, keccak256_of};
use crate::word::{word_be_bytes, Word};

verus! {

/// Whether the pattern occurs at position `i` of the text.
pub open spec fn contains_at(s: Seq<char>, p: Seq<char>, i: int) -> bool {
    0 <= i && i + p.len() <= s.len() && s.subrange(i, i + p.len()) == p
}

/// Whether the pattern occurs anywhere in the text.
pub open spec fn contains_seq(s: Seq<char>, p: Seq<char>) -> bool {
    exists|i: int| contains_at(s, p, i)
}

/// The index of the first opening parenthesis, or the length when
/// there is none.
pub open spec fn paren_idx(s: Seq<char>) -> int
    decreases s.len(),
{
    if s.len() == 0 {
        0
    } else if s[0] == '(' {
        0
    } else {
        1 + paren_idx(s.subrange(1, s.len() as int))
    }
}

/// A comma-separated run of `n` copies of the word-type name.
pub open spec fn uint_types(n: nat) -> Seq<char>
    decreases n,
{
    if n == 0 {
        Seq::empty()
    } else if n == 1 {
        "uint256"@
    } else {
        uint_types((n - 1) as nat) + ","@ + "uint256"@
    }
}

/// The normalized signature: one already naming a word or address type
/// is kept; any other has everything from its first parenthesis
/// replaced by a list of word types, one per argument.
pub open spec fn normalize_spec(s: Seq<char>, nargs: nat) -> Seq<char> {
    if contains_seq(s, "uint"@) || contains_seq(s, "address"@) {
        s
    } else {
        s.subrange(0, paren_idx(s)) + "("@ + uint_types(nargs) + ")"@
    }
}

/// A position with no parenthesis before it and a parenthesis or the
/// end at it is the first-parenthesis index.
proof fn lemma_paren_idx_at(s: Seq<char>, k: int)
    requires
        0 <= k <= s.len(),
        forall|j: int| 0 <= j < k ==> s[j] != '(',
        k == s.len() || s[k] == '(',
    ensures
        paren_idx(s) == k,
    decreases s.len(),
{
    if s.len() > 0 && s[0] != '(' {
        let t = s.subrange(1, s.len() as int);
        lemma_paren_idx_at(t, k - 1);
    }
}

/// Whether the pattern occurs in the text.
fn contains_pattern(s: &str, p: &str) -> (r: bool)
    ensures
        r == contains_seq(s@, p@),
{
    let slen: usize = s.unicode_len();
    let plen: usize = p.unicode_len();
    if plen > slen {
        proof {
            assert forall|i: int| !contains_at(s@, p@, i) by {}
        }
        return false;
    }
    if plen == 0 {
        proof {
            assert(s@.subrange(0, 0) =~= p@);
            assert(contains_at(s@, p@, 0));
        }
        return true;
    }
    let mut i: usize = 0;
    while i <= slen - plen
        invariant
            0 < plen <= slen,
            slen == s@.len(),
            plen == p@.len(),
            i <= slen - plen + 1,
            forall|t: int| 0 <= t < i ==> !contains_at(s@, p@, t),
        decreases slen + 1 - i,
    {
        let mut j: usize = 0;
        let mut hit: bool = true;
        while j < plen
            invariant
                plen <= slen,
                slen == s@.len(),
                plen == p@.len(),
                i + plen <= slen,
                j <= plen,
                hit ==> forall|t: int| 0 <= t < j ==> s@[i + t] == p@[t],
                !hit ==> !contains_at(s@, p@, i as int),
            decreases plen - j,
        {
            if hit {
                let sc: char = s.get_char(i + j);
                let pc: char = p.get_char(j);
                if sc != pc {
                    proof {
                        if contains_at(s@, p@, i as int) {
                            assert(s@.subrange(i as int, i + plen)[j as int] == p@[j as int]);
                        }
                    }
                    hit = false;
                }
            }
            j = j + 1;
        }
        if hit {
            proof {
                assert(s@.subrange(i as int, i + plen) =~= p@);
                assert(contains_at(s@, p@, i as int));
            }
            return true;
        }
        i = i + 1;
    }
    proof {
        assert forall|t: int| !contains_at(s@, p@, t) by {
            if 0 <= t <= slen - plen {
                assert(!contains_at(s@, p@, t));
            }
        }
    }
    false
}

/// The index of the first opening parenthesis, or the length when
/// there is none.
fn find_paren(sig: &str) -> (r: usize)
    ensures
        r as int == paren_idx(sig@),
        r <= sig@.len(),
{
    let slen: usize = sig.unicode_len();
    let mut idx: usize = 0;
    while idx < slen
        invariant
            slen == sig@.len(),
            idx <= slen,
            forall|j: int| 0 <= j < idx ==> sig@[j] != '(',
        decreases slen - idx,
    {
        if sig.get_char(idx) == '(' {
            proof {
                lemma_paren_idx_at(sig@, idx as int);
            }
            return idx;
        }
        idx = idx + 1;
    }
    proof {
        lemma_paren_idx_at(sig@, slen as int);
    }
    slen
}

/// Normalizes a call signature: one that already names a word or
/// address type is returned as given; otherwise the name before the
/// first parenthesis is kept and a word type is written for each
/// argument.
pub fn normalize_signature(sig: &str, args: &[String]) -> (r: String)
    ensures
        r@ == normalize_spec(sig@, args@.len()),
{
    if contains_pattern(sig, "uint") || contains_pattern(sig, "address") {
        return sig.to_owned();
    }
    let idx: usize = find_paren(sig);
    let name: &str = sig.substring_char(0, idx);
    let mut out: String = String::from_str(name);
    out.append("(");
    let n: usize = args.len();
    let mut i: usize = 0;
    while i < n
        invariant
            n == args@.len(),
            i <= n,
            out@ == sig@.subrange(0, paren_idx(sig@)) + "("@ + uint_types(i as nat),
        decreases n - i,
    {
        if i > 0 {
            out.append(",");
        }
        out.append("uint256");
        i = i + 1;
    }
    out.append(")");
    out
}

/// The four-byte selector of a call: the leading bytes of the
/// Keccak-256 digest of the signature's bytes.
pub fn function_selector(signature: &str) -> (r: [u8; 4])
    ensures
        r@ == keccak256_of(signature.spec_bytes()).take(4),
{
    let hash: Vec<u8> = keccak256(signature.as_bytes());
    let r: [u8; 4] = [hash[0], hash[1], hash[2], hash[3]];
    proof {
        assert(r@ =~= keccak256_of(signature.spec_bytes()).take(4));
    }
    r
}

/// The byte images of a run of words, in order.
pub open spec fn encode_words(ws: Seq<nat>) -> Seq<u8>
    decreases ws.len(),
{
    if ws.len() == 0 {
        Seq::empty()
    } else {
        encode_words(ws.drop_last()) + word_be_bytes(ws.last())
    }
}

/// Lays out call input: the selector followed by each argument as a
/// 32-byte big-endian word.
pub fn encode_call(selector: &[u8; 4], args: &Vec<Word>) -> (r: Vec<u8>)
    ensures
        r@ == selector@ + encode_words(args@.map_values(|w: Word| w@)),
{
    let mut out: Vec<u8> = Vec::new();
    out.push(selector[0]);
    out.push(selector[1]);
    out.push(selector[2]);
    out.push(selector[3]);
    proof {
        assert(out@ =~= selector@ + encode_words(
            args@.map_values(|w: Word| w@).take(0),
        ));
    }
    let n: usize = args.len();
    let mut i: usize = 0;
    while i < n
        invariant
            n == args@.len(),
            i <= n,
            out@ == selector@ + encode_words(args@.map_values(|w: Word| w@).take(i as int)),
        decreases n - i,
    {
        let mut bytes: Vec<u8> = args[i].to_be_bytes();
        out.append(&mut bytes);
        proof {
            let vals = args@.map_values(|w: Word| w@);
            assert(vals.take(i + 1).drop_last() =~= vals.take(i as int));
            assert(vals.take(i + 1).last() == vals[i as int]);
        }
        i = i + 1;
    }
    proof {
        assert(args@.map_values(|w: Word| w@).take(n as int) =~= args@.map_values(
            |w: Word| w@,
        ));
    }
    out
}

} // verus!
