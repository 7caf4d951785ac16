use vstd::prelude::*;

verus! {

/// `256` raised to the power `n`.
pub open spec fn pow256(n: nat) -> nat
    decreases n,
{
    if n == 0 {
        1
    } else {
        256 * pow256((n - 1) as nat)
    }
}

pub proof fn lemma_pow256_values()
    ensures
        pow256(0) == 1,
        pow256(1) == 256,
        pow256(2) == 65536,
        pow256(4) == 0x1_0000_0000,
        pow256(8) == 0x1_0000_0000_0000_0000,
{
    reveal_with_fuel(pow256, 9);
}

pub proof fn lemma_pow256_monotonic(a: nat, b: nat)
    requires
        a <= b,
    ensures
        1 <= pow256(a) <= pow256(b),
    decreases b,
{
    if b > 0 {
        if a < b {
            lemma_pow256_monotonic(a, (b - 1) as nat);
        } else {
            lemma_pow256_monotonic(0, (b - 1) as nat);
        }
    }
}

/// The unsigned number that the bytes `s` spell, most significant first.
pub open spec fn be_nat(s: Seq<u8>) -> nat
    decreases s.len(),
{
    if s.len() == 0 {
        0
    } else {
        (be_nat(s.subrange(0, s.len() - 1)) * 256 + s[s.len() - 1]) as nat
    }
}

/// The `n` low bytes of `v`, most significant first.
pub open spec fn be_bytes(v: nat, n: nat) -> Seq<u8>
    decreases n,
{
    if n == 0 {
        Seq::empty()
    } else {
        be_bytes(v / 256, (n - 1) as nat).push((v % 256) as u8)
    }
}

/// The unsigned number held by the `n` bytes of `s` from `pos` on.
pub open spec fn uint_at(s: Seq<u8>, pos: int, n: nat) -> nat {
    be_nat(s.subrange(pos, pos + n))
}

/// The two's complement reading of an `n`-byte unsigned number.
pub open spec fn signed(u: nat, n: nat) -> int {
    if 2 * u >= pow256(n) {
        u - pow256(n)
    } else {
        u as int
    }
}

/// The `n`-byte two's complement pattern of `x`, as an unsigned number.
pub open spec fn twos(x: int, n: nat) -> nat {
    if x < 0 {
        (x + pow256(n)) as nat
    } else {
        x as nat
    }
}

/// The bytes of a text, one for each character.
pub open spec fn latin1_bytes(s: Seq<char>) -> Seq<u8> {
    s.map(|i: int, c: char| (c as u32) as u8)
}

/// The text whose characters are the code points of the bytes `b`.
pub open spec fn latin1_chars(b: Seq<u8>) -> Seq<char> {
    b.map(|i: int, x: u8| x as char)
}

pub proof fn lemma_be_bytes_len(v: nat, n: nat)
    ensures
        be_bytes(v, n).len() == n,
    decreases n,
{
    if n > 0 {
        lemma_be_bytes_len(v / 256, (n - 1) as nat);
    }
}

/// Reading back `n` bytes written from a number below `256^n` gives it again.
pub proof fn lemma_be_round_trip(v: nat, n: nat)
    requires
        v < pow256(n),
    ensures
        be_nat(be_bytes(v, n)) == v,
        be_bytes(v, n).len() == n,
    decreases n,
{
    lemma_be_bytes_len(v, n);
    if n > 0 {
        let m = (n - 1) as nat;
        assert(v / 256 < pow256(m)) by {
            assert(pow256(n) == 256 * pow256(m));
        }
        lemma_be_round_trip(v / 256, m);
        let b = be_bytes(v, n);
        assert(b.subrange(0, b.len() - 1) =~= be_bytes(v / 256, m));
    }
}

/// Signed values survive the two's complement pattern.
pub proof fn lemma_twos_round_trip(x: int, n: nat)
    requires
        n > 0,
        -pow256(n) <= 2 * x < pow256(n),
    ensures
        twos(x, n) < pow256(n),
        signed(twos(x, n), n) == x,
{
}

pub proof fn lemma_latin1_round_trip(s: Seq<char>)
    requires
        crate::nbt_tag::latin1(s),
    ensures
        latin1_chars(latin1_bytes(s)) == s,
        latin1_bytes(s).len() == s.len(),
{
    assert forall|i: int| 0 <= i < s.len() implies #[trigger] latin1_chars(latin1_bytes(s))[i]
        == s[i] by {
        let c = s[i];
        assert((c as u32) < 256);
        let b = (c as u32) as u8;
        assert(b as u32 == c as u32);
        vstd::utf8::char_u32_cast(c, c as u32);
    }
    assert(latin1_chars(latin1_bytes(s)) =~= s);
}

pub proof fn lemma_latin1_chars_ok(b: Seq<u8>)
    ensures
        crate::nbt_tag::latin1(latin1_chars(b)),
        latin1_chars(b).len() == b.len(),
{
}

pub proof fn lemma_be_nat_bound(s: Seq<u8>)
    ensures
        be_nat(s) < pow256(s.len()),
    decreases s.len(),
{
    if s.len() > 0 {
        lemma_be_nat_bound(s.subrange(0, s.len() - 1));
    }
}

/// Reads the unsigned big-endian number in `buf[pos..pos + n]`.
pub fn read_uint(buf: &[u8], pos: usize, n: usize) -> (r: u64)
    requires
        pos + n <= buf.len(),
        n <= 8,
    ensures
        r == uint_at(buf@, pos as int, n as nat),
        (r as nat) < pow256(n as nat),
{
    let mut acc: u64 = 0;
    let mut i: usize = 0;
    while i < n
        invariant
            i <= n,
            n <= 8,
            pos + n <= buf.len(),
            acc == be_nat(buf@.subrange(pos as int, pos + i)),
            (acc as nat) < pow256(i as nat),
        decreases n - i,
    {
        proof {
            lemma_pow256_monotonic((i + 1) as nat, 8);
            lemma_pow256_values();
            assert(pow256((i + 1) as nat) == 256 * pow256(i as nat));
            let s = buf@.subrange(pos as int, pos + i + 1);
            assert(s.subrange(0, s.len() - 1) =~= buf@.subrange(pos as int, pos + i));
        }
        acc = acc * 256 + buf[pos + i] as u64;
        i = i + 1;
    }
    acc
}

/// Reads a signed byte.
pub fn read_i8(buf: &[u8], pos: usize) -> (r: i8)
    requires
        pos + 1 <= buf@.len(),
    ensures
        r == signed(uint_at(buf@, pos as int, 1), 1),
{
    let u = read_uint(buf, pos, 1);
    proof {
        lemma_pow256_values();
    }
    if u >= 128 {
        (u as i16 - 256) as i8
    } else {
        u as i8
    }
}

/// Reads a big-endian `i16`.
pub fn read_i16(buf: &[u8], pos: usize) -> (r: i16)
    requires
        pos + 2 <= buf@.len(),
    ensures
        r == signed(uint_at(buf@, pos as int, 2), 2),
{
    let u = read_uint(buf, pos, 2);
    proof {
        lemma_pow256_values();
    }
    if u >= 32768 {
        (u as i32 - 65536) as i16
    } else {
        u as i16
    }
}

/// Reads a big-endian `i32`.
pub fn read_i32(buf: &[u8], pos: usize) -> (r: i32)
    requires
        pos + 4 <= buf@.len(),
    ensures
        r == signed(uint_at(buf@, pos as int, 4), 4),
{
    let u = read_uint(buf, pos, 4);
    proof {
        lemma_pow256_values();
    }
    if u >= 0x8000_0000 {
        (u as i64 - 0x1_0000_0000) as i32
    } else {
        u as i32
    }
}

/// Reads a big-endian `i64`.
pub fn read_i64(buf: &[u8], pos: usize) -> (r: i64)
    requires
        pos + 8 <= buf@.len(),
    ensures
        r == signed(uint_at(buf@, pos as int, 8), 8),
{
    let u = read_uint(buf, pos, 8);
    proof {
        lemma_pow256_values();
    }
    if u >= 0x8000_0000_0000_0000 {
        ((u - 0x8000_0000_0000_0000) as i64) - 0x7fff_ffff_ffff_ffff - 1
    } else {
        u as i64
    }
}

/// Appends the `n` low bytes of `v`, most significant first.
pub fn write_uint(buf: &mut Vec<u8>, v: u64, n: usize)
    requires
        n <= 8,
    ensures
        final(buf)@ == old(buf)@ + be_bytes(v as nat, n as nat),
    decreases n,
{
    if n > 0 {
        write_uint(buf, v / 256, n - 1);
        buf.push((v % 256) as u8);
        assert(buf@ =~= old(buf)@ + be_bytes(v as nat, n as nat));
    } else {
        assert(buf@ =~= old(buf)@ + be_bytes(v as nat, n as nat));
    }
}

/// Appends the two's complement bytes of a signed byte.
pub fn write_i8(buf: &mut Vec<u8>, x: i8)
    ensures
        final(buf)@ == old(buf)@ + be_bytes(twos(x as int, 1), 1),
{
    proof {
        lemma_pow256_values();
    }
    let u: u64 = if x < 0 {
        (x as i16 + 256) as u64
    } else {
        x as u64
    };
    write_uint(buf, u, 1);
}

/// Appends a big-endian `i16`.
pub fn write_i16(buf: &mut Vec<u8>, x: i16)
    ensures
        final(buf)@ == old(buf)@ + be_bytes(twos(x as int, 2), 2),
{
    proof {
        lemma_pow256_values();
    }
    let u: u64 = if x < 0 {
        (x as i32 + 65536) as u64
    } else {
        x as u64
    };
    write_uint(buf, u, 2);
}

/// Appends a big-endian `i32`.
pub fn write_i32(buf: &mut Vec<u8>, x: i32)
    ensures
        final(buf)@ == old(buf)@ + be_bytes(twos(x as int, 4), 4),
{
    proof {
        lemma_pow256_values();
    }
    let u: u64 = if x < 0 {
        (x as i64 + 0x1_0000_0000) as u64
    } else {
        x as u64
    };
    write_uint(buf, u, 4);
}

/// Appends a big-endian `i64`.
pub fn write_i64(buf: &mut Vec<u8>, x: i64)
    ensures
        final(buf)@ == old(buf)@ + be_bytes(twos(x as int, 8), 8),
{
    proof {
        lemma_pow256_values();
    }
    let u: u64 = if x < 0 {
        ((x + 0x7fff_ffff_ffff_ffff + 1) as u64) + 0x8000_0000_0000_0000
    } else {
        x as u64
    };
    write_uint(buf, u, 8);
}

/// Relies on `String::push`: appends one character to the text.
#[verifier::external_body]
fn push_char(s: &mut String, c: char)
    ensures
        final(s)@ == old(s)@.push(c),
{
    s.push(c)
}

/// Reads `n` bytes from `pos` on as a text of `n` characters.
pub fn read_text(buf: &[u8], pos: usize, n: usize) -> (r: String)
    requires
        pos + n <= buf.len(),
    ensures
        r@ == latin1_chars(buf@.subrange(pos as int, pos + n)),
{
    let mut out = String::new();
    let mut i: usize = 0;
    while i < n
        invariant
            i <= n,
            pos + n <= buf.len(),
            out@ == latin1_chars(buf@.subrange(pos as int, pos + i)),
        decreases n - i,
    {
        push_char(&mut out, buf[pos + i] as char);
        i = i + 1;
        assert(out@ =~= latin1_chars(buf@.subrange(pos as int, pos + i)));
    }
    out
}

/// Appends one byte for each character of `s`.
pub fn write_text(buf: &mut Vec<u8>, s: &String)
    ensures
        final(buf)@ == old(buf)@ + latin1_bytes(s@),
{
    broadcast use vstd::string::group_string_axioms;

    let ghost start = buf@;
    for c in it: s.chars()
        invariant
            it.seq() == s@,
            buf@ == start + latin1_bytes(s@.take(it.index() as int)),
    {
        buf.push(#[verifier::truncate] ((c as u32) as u8));
        assert(buf@ =~= start + latin1_bytes(s@.take(it.index() + 1)));
    }
    assert(s@.take(s@.len() as int) =~= s@);
}

/// The number of characters of `s`.
pub fn text_len(s: &String) -> (r: usize)
    ensures
        r == s@.len(),
{
    s.as_str().unicode_len()
}

} // verus!
