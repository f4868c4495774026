//! Jenkins' one-at-a-time hash.
use vstd::prelude::*;

verus! {

/// One round of the hash: fold a byte into the running state.
pub open spec fn mix_byte(h: u32, b: u8) -> u32 {
    let h1 = h.wrapping_add(b as u32);
    let h2 = h1.wrapping_add(h1 << 10u32);
    h2 ^ (h2 >> 6u32)
}

/// The running state after every byte of `bytes` has been folded in, starting from zero.
pub open spec fn mix_all(bytes: Seq<u8>) -> u32
    decreases bytes.len(),
{
    if bytes.len() == 0 {
        0
    } else {
        mix_byte(mix_all(bytes.drop_last()), bytes.last())
    }
}

/// The final avalanche applied to the running state.
pub open spec fn finish(h: u32) -> u32 {
    let h1 = h.wrapping_add(h << 3u32);
    let h2 = h1 ^ (h1 >> 11u32);
    h2.wrapping_add(h2 << 15u32)
}

/// The one-at-a-time hash of a byte sequence.
pub open spec fn spec_hash(bytes: Seq<u8>) -> u32 {
    finish(mix_all(bytes))
}

/// The one-at-a-time hash of a string, taken over its UTF-8 bytes.
pub open spec fn spec_hash_str(s: Seq<char>) -> u32 {
    spec_hash(vstd::utf8::encode_utf8(s))
}

/// Jenkins' one-at-a-time hash of the UTF-8 bytes of `string`.
pub fn one_at_a_time(string: &str) -> (hash: u32)
    ensures
        hash == spec_hash_str(string@),
{
    let bytes = string.as_bytes();
    let mut hash: u32 = 0;
    let mut i: usize = 0;
    while i < bytes.len()
        invariant
            i <= bytes@.len(),
            hash == mix_all(bytes@.take(i as int)),
        decreases bytes@.len() - i,
    {
        let byte = bytes[i];
        proof {
            assert(bytes@.take(i + 1).drop_last() =~= bytes@.take(i as int));
        }
        hash = hash.wrapping_add(byte as u32);
        hash = hash.wrapping_add(hash << 10u32);
        hash = hash ^ (hash >> 6u32);
        i = i + 1;
    }
    proof {
        assert(bytes@.take(i as int) =~= bytes@);
    }
    hash = hash.wrapping_add(hash << 3u32);
    hash = hash ^ (hash >> 11u32);
    hash = hash.wrapping_add(hash << 15u32);
    hash
}

/// Checks the hash against two reference values: the hash of
/// `"The quick brown fox jumps over the lazy dog"` is `0x519e91f5`, and that of `"a"`
/// is `0xca2e9442`.
pub fn check_reference_hashes() -> (ok: bool)
    ensures
        ok == (spec_hash_str("The quick brown fox jumps over the lazy dog"@) == 0x519e91f5u32
            && spec_hash_str("a"@) == 0xca2e9442u32),
{
    let fox = one_at_a_time("The quick brown fox jumps over the lazy dog");
    let a = one_at_a_time("a");
    fox == 0x519e91f5u32 && a == 0xca2e9442u32
}

/// The hash, step by step: the running state starts at zero; each byte, as it is,
/// is added and then mixed by a shift left of 10 and a shift right of 6; the final
/// state is mixed by shifts of 3, 11 and 15. A string is hashed over its UTF-8 bytes.
pub proof fn law_hash_steps(bytes: Seq<u8>, b: u8)
    ensures
        mix_all(Seq::<u8>::empty()) == 0,
        mix_all(bytes.push(b)) == ({
            let h1 = mix_all(bytes).wrapping_add(b as u32);
            let h2 = h1.wrapping_add(h1 << 10u32);
            h2 ^ (h2 >> 6u32)
        }),
        spec_hash(bytes) == ({
            let h = mix_all(bytes);
            let h1 = h.wrapping_add(h << 3u32);
            let h2 = h1 ^ (h1 >> 11u32);
            h2.wrapping_add(h2 << 15u32)
        }),
        forall|s: Seq<char>| #[trigger] spec_hash_str(s) == spec_hash(vstd::utf8::encode_utf8(s)),
{
    assert(bytes.push(b).drop_last() =~= bytes);
}

} // verus!
