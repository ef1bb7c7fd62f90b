//! The stored form of a module: its code and the names of the modules it
//! imports, written by serde_cbor as the two-element CBOR array
//! `[[byte, byte, ...], [name, name, ...]]` with shortest-form headers.
//! `record_bytes` states that form and `parse_record` reads it back.
use vstd::prelude::*;
use vstd::utf8::*;

verus! {

/// A module as it is kept in a store: Wasm code and its dependency names.
pub struct WasmModule {
    /// Wasm code bytes.
    pub code: Vec<u8>,
    /// Names of the modules whose exports this module imports, in order.
    pub host_modules: Vec<String>,
}

/// A borrowed module, as handed to a store for writing.
pub struct WasmModuleRef<'a> {
    /// Wasm code bytes.
    pub code: &'a [u8],
    /// Names of the modules whose exports this module imports, in order.
    pub host_modules: &'a [String],
}

/// The characters of each name.
pub open spec fn names_view(v: Seq<String>) -> Seq<Seq<char>> {
    v.map_values(|s: String| s@)
}

impl View for WasmModule {
    type V = (Seq<u8>, Seq<Seq<char>>);

    open spec fn view(&self) -> (Seq<u8>, Seq<Seq<char>>) {
        (self.code@, names_view(self.host_modules@))
    }
}

impl<'a> View for WasmModuleRef<'a> {
    type V = (Seq<u8>, Seq<Seq<char>>);

    open spec fn view(&self) -> (Seq<u8>, Seq<Seq<char>>) {
        (self.code@, names_view(self.host_modules@))
    }
}

pub open spec fn pow256(k: nat) -> nat
    decreases k,
{
    if k == 0 {
        1
    } else {
        256 * pow256((k - 1) as nat)
    }
}

/// `n` written big-endian in `k` bytes.
pub open spec fn be_bytes(n: nat, k: nat) -> Seq<u8>
    decreases k,
{
    if k == 0 {
        Seq::empty()
    } else {
        be_bytes(n / 256, (k - 1) as nat).push((n % 256) as u8)
    }
}

/// The number that big-endian bytes `s` stand for.
pub open spec fn be_value(s: Seq<u8>) -> nat
    decreases s.len(),
{
    if s.len() == 0 {
        0
    } else {
        (be_value(s.drop_last()) * 256 + s.last()) as nat
    }
}

/// How many bytes follow the initial byte of a header whose argument is `n`.
pub open spec fn arg_width(n: nat) -> nat {
    if n < 24 {
        0
    } else if n < 0x100 {
        1
    } else if n < 0x1_0000 {
        2
    } else if n < 0x1_0000_0000 {
        4
    } else {
        8
    }
}

/// The low five bits of the initial byte for an argument of width `w`.
pub open spec fn width_info(w: nat) -> nat {
    if w == 1 {
        24
    } else if w == 2 {
        25
    } else if w == 4 {
        26
    } else {
        27
    }
}

/// The shortest CBOR header of major type `major` with argument `n`.
pub open spec fn header(major: u8, n: nat) -> Seq<u8> {
    let w = arg_width(n);
    let info = if w == 0 {
        n
    } else {
        width_info(w)
    };
    seq![(major * 32 + info) as u8] + be_bytes(n, w)
}

/// One code byte, as an unsigned integer item.
pub open spec fn byte_item(b: u8) -> Seq<u8> {
    header(0, b as nat)
}

/// One name, as a text item.
pub open spec fn name_item(s: Seq<char>) -> Seq<u8> {
    header(3, encode_utf8(s).len()) + encode_utf8(s)
}

pub open spec fn byte_items(c: Seq<u8>) -> Seq<u8>
    decreases c.len(),
{
    if c.len() == 0 {
        Seq::empty()
    } else {
        byte_items(c.drop_last()) + byte_item(c.last())
    }
}

pub open spec fn name_items(d: Seq<Seq<char>>) -> Seq<u8>
    decreases d.len(),
{
    if d.len() == 0 {
        Seq::empty()
    } else {
        name_items(d.drop_last()) + name_item(d.last())
    }
}

/// The encoding of the record `(code, deps)`.
pub open spec fn record_bytes(code: Seq<u8>, deps: Seq<Seq<char>>) -> Seq<u8> {
    header(4, 2) + header(4, code.len()) + byte_items(code) + header(4, deps.len()) + name_items(
        deps,
    )
}

/// The header at `pos` of `s`: its major type, argument and end. Only the
/// shortest form of each argument is accepted.
pub open spec fn parse_header(s: Seq<u8>, pos: int) -> Option<(u8, nat, int)> {
    if pos < 0 || pos >= s.len() {
        None
    } else {
        let b = s[pos];
        let major = (b / 32) as u8;
        let info = (b % 32) as nat;
        if info < 24 {
            Some((major, info, pos + 1))
        } else if info > 27 {
            None
        } else {
            let w: nat = if info == 24 {
                1
            } else if info == 25 {
                2
            } else if info == 26 {
                4
            } else {
                8
            };
            if pos + 1 + w > s.len() {
                None
            } else {
                let v = be_value(s.subrange(pos + 1, pos + 1 + w));
                if arg_width(v) != w {
                    None
                } else {
                    Some((major, v, pos + 1 + w))
                }
            }
        }
    }
}

/// `n` unsigned-integer items below 256 from `pos` on: the bytes and the end.
pub open spec fn parse_bytes(s: Seq<u8>, pos: int, n: nat) -> Option<(Seq<u8>, int)>
    decreases n,
{
    if n == 0 {
        Some((Seq::empty(), pos))
    } else {
        match parse_bytes(s, pos, (n - 1) as nat) {
            Some((acc, p)) => match parse_header(s, p) {
                Some((major, v, e)) => if major == 0 && v < 256 {
                    Some((acc.push(v as u8), e))
                } else {
                    None
                },
                None => None,
            },
            None => None,
        }
    }
}

/// `n` text items from `pos` on: the names and the end.
pub open spec fn parse_names(s: Seq<u8>, pos: int, n: nat) -> Option<(Seq<Seq<char>>, int)>
    decreases n,
{
    if n == 0 {
        Some((Seq::empty(), pos))
    } else {
        match parse_names(s, pos, (n - 1) as nat) {
            Some((acc, p)) => match parse_header(s, p) {
                Some((major, len, e)) => if major == 3 && e + len <= s.len() && valid_utf8(
                    s.subrange(e, e + len),
                ) {
                    Some((acc.push(decode_utf8(s.subrange(e, e + len))), e + len))
                } else {
                    None
                },
                None => None,
            },
            None => None,
        }
    }
}

/// The record that `s` encodes, if `s` is exactly one encoded record.
pub open spec fn parse_record(s: Seq<u8>) -> Option<(Seq<u8>, Seq<Seq<char>>)> {
    match parse_header(s, 0) {
        Some((m0, two, outer_end)) => if m0 == 4 && two == 2 {
            match parse_header(s, outer_end) {
                Some((m1, n, code_start)) => if m1 == 4 {
                    match parse_bytes(s, code_start, n) {
                        Some((code, code_end)) => match parse_header(s, code_end) {
                            Some((m2, k, names_start)) => if m2 == 4 {
                                match parse_names(s, names_start, k) {
                                    Some((deps, names_end)) => if names_end == s.len() {
                                        Some((code, deps))
                                    } else {
                                        None
                                    },
                                    None => None,
                                }
                            } else {
                                None
                            },
                            None => None,
                        },
                        None => None,
                    }
                } else {
                    None
                },
                None => None,
            }
        } else {
            None
        },
        None => None,
    }
}


proof fn lemma_pow256_values()
    ensures
        pow256(1) == 0x100,
        pow256(2) == 0x1_0000,
        pow256(4) == 0x1_0000_0000,
        pow256(8) == 0x1_0000_0000_0000_0000,
{
    reveal_with_fuel(pow256, 9);
}

proof fn lemma_be_round_trip(n: nat, k: nat)
    requires
        n < pow256(k),
    ensures
        be_bytes(n, k).len() == k,
        be_value(be_bytes(n, k)) == n,
    decreases k,
{
    if k > 0 {
        let p = pow256((k - 1) as nat);
        assert(n / 256 < p) by (nonlinear_arith)
            requires
                n < 256 * p,
        ;
        lemma_be_round_trip(n / 256, (k - 1) as nat);
        let b = be_bytes(n, k);
        assert(b.drop_last() =~= be_bytes(n / 256, (k - 1) as nat));
    }
}

/// Splits a match of `a + b` at `pos` into a match of `a` and one of `b`.
proof fn lemma_split_match(s: Seq<u8>, pos: int, a: Seq<u8>, b: Seq<u8>)
    requires
        0 <= pos,
        pos + a.len() + b.len() <= s.len(),
        s.subrange(pos, pos + a.len() + b.len()) == a + b,
    ensures
        s.subrange(pos, pos + a.len()) == a,
        s.subrange(pos + a.len(), pos + a.len() + b.len()) == b,
{
    let whole = s.subrange(pos, pos + a.len() + b.len());
    assert forall|i: int| 0 <= i < a.len() implies s.subrange(pos, pos + a.len())[i] == a[i] by {
        assert(whole[i] == (a + b)[i]);
    }
    assert forall|i: int| 0 <= i < b.len() implies s.subrange(
        pos + a.len(),
        pos + a.len() + b.len(),
    )[i] == b[i] by {
        assert(whole[a.len() + i] == (a + b)[a.len() + i]);
    }
    assert(s.subrange(pos, pos + a.len()) =~= a);
    assert(s.subrange(pos + a.len(), pos + a.len() + b.len()) =~= b);
}

proof fn lemma_header_len(major: u8, n: nat)
    requires
        n < pow256(8),
    ensures
        header(major, n).len() == 1 + arg_width(n),
{
    lemma_pow256_values();
    let w = arg_width(n);
    if w > 0 {
        lemma_be_round_trip(n, w);
    }
}

proof fn lemma_parse_header(s: Seq<u8>, pos: int, major: u8, n: nat)
    requires
        major < 8,
        n < pow256(8),
        0 <= pos,
        pos + header(major, n).len() <= s.len(),
        s.subrange(pos, pos + header(major, n).len()) == header(major, n),
    ensures
        parse_header(s, pos) == Some((major, n, pos + header(major, n).len())),
{
    lemma_pow256_values();
    lemma_header_len(major, n);
    let h = header(major, n);
    let w = arg_width(n);
    let info: nat = if w == 0 {
        n
    } else {
        width_info(w)
    };
    assert(info < 32);
    assert(s[pos] == h[0]) by {
        assert(s.subrange(pos, pos + h.len())[0] == h[0]);
    }
    let b0: int = major * 32 + info;
    assert(0 <= b0 < 256);
    assert(b0 / 32 == major && b0 % 32 == info) by (nonlinear_arith)
        requires
            b0 == major * 32 + info,
            0 <= info < 32,
            0 <= major < 8,
    ;
    if w > 0 {
        lemma_be_round_trip(n, w);
        lemma_split_match(s, pos, seq![b0 as u8], be_bytes(n, w));
    }
}

proof fn lemma_parse_bytes(s: Seq<u8>, pos: int, c: Seq<u8>)
    requires
        0 <= pos,
        pos + byte_items(c).len() <= s.len(),
        s.subrange(pos, pos + byte_items(c).len()) == byte_items(c),
    ensures
        parse_bytes(s, pos, c.len()) == Some((c, pos + byte_items(c).len())),
    decreases c.len(),
{
    if c.len() > 0 {
        let c0 = c.drop_last();
        let items0 = byte_items(c0);
        let item = byte_item(c.last());
        lemma_split_match(s, pos, items0, item);
        lemma_parse_bytes(s, pos, c0);
        lemma_pow256_values();
        lemma_parse_header(s, pos + items0.len(), 0, c.last() as nat);
        assert(c0.push(c.last()) =~= c);
    }
}

/// Every name has a UTF-8 form whose length fits in a header.
pub open spec fn names_fit(d: Seq<Seq<char>>) -> bool {
    forall|i: int| 0 <= i < d.len() ==> #[trigger] encode_utf8(d[i]).len() < pow256(8)
}

proof fn lemma_parse_names(s: Seq<u8>, pos: int, d: Seq<Seq<char>>)
    requires
        names_fit(d),
        0 <= pos,
        pos + name_items(d).len() <= s.len(),
        s.subrange(pos, pos + name_items(d).len()) == name_items(d),
    ensures
        parse_names(s, pos, d.len()) == Some((d, pos + name_items(d).len())),
    decreases d.len(),
{
    if d.len() > 0 {
        let d0 = d.drop_last();
        let items0 = name_items(d0);
        let x = d.last();
        let e = encode_utf8(x);
        let h = header(3, e.len());
        assert(encode_utf8(d[d.len() - 1]).len() < pow256(8));
        assert forall|i: int| 0 <= i < d0.len() implies #[trigger] encode_utf8(d0[i]).len()
            < pow256(8) by {
            assert(d0[i] == d[i]);
        }
        lemma_split_match(s, pos, items0, h + e);
        lemma_parse_names(s, pos, d0);
        let p = pos + items0.len();
        lemma_split_match(s, p, h, e);
        lemma_parse_header(s, p, 3, e.len());
        encode_utf8_valid_utf8(x);
        encode_utf8_decode_utf8(x);
        assert(d0.push(x) =~= d);
    }
}

/// Decoding the encoding of a record gives the record back.
#[verifier::rlimit(40)]
pub proof fn lemma_record_round_trip(code: Seq<u8>, deps: Seq<Seq<char>>)
    requires
        code.len() < pow256(8),
        deps.len() < pow256(8),
        names_fit(deps),
    ensures
        parse_record(record_bytes(code, deps)) == Some((code, deps)),
{
    lemma_pow256_values();
    let s = record_bytes(code, deps);
    let h0 = header(4, 2);
    let h1 = header(4, code.len());
    let bi = byte_items(code);
    let h2 = header(4, deps.len());
    let ni = name_items(deps);
    let a1 = h0 + h1;
    let a2 = a1 + bi;
    let a3 = a2 + h2;
    assert(s == a3 + ni);
    assert(s.subrange(0, s.len() as int) =~= s);
    lemma_split_match(s, 0, a3, ni);
    lemma_split_match(s, 0, a2, h2);
    lemma_split_match(s, 0, a1, bi);
    lemma_split_match(s, 0, h0, h1);
    lemma_parse_header(s, 0, 4, 2);
    lemma_parse_header(s, h0.len() as int, 4, code.len());
    lemma_parse_bytes(s, a1.len() as int, code);
    lemma_parse_header(s, a2.len() as int, 4, deps.len());
    lemma_parse_names(s, a3.len() as int, deps);
}


proof fn lemma_be_value_bound(t: Seq<u8>)
    ensures
        be_value(t) < pow256(t.len()),
    decreases t.len(),
{
    if t.len() > 0 {
        lemma_be_value_bound(t.drop_last());
        let a = be_value(t.drop_last());
        let p = pow256((t.len() - 1) as nat);
        let b = t.last() as int;
        assert(a * 256 + b < 256 * p) by (nonlinear_arith)
            requires
                a < p,
                0 <= b < 256,
        ;
    }
}

proof fn lemma_be_bytes_of_value(t: Seq<u8>)
    ensures
        be_bytes(be_value(t), t.len()) == t,
    decreases t.len(),
{
    if t.len() > 0 {
        let a = be_value(t.drop_last());
        let b = t.last() as int;
        let v = be_value(t);
        assert(v == a * 256 + b);
        assert(v / 256 == a && v % 256 == b) by (nonlinear_arith)
            requires
                v == a * 256 + b,
                0 <= b < 256,
                a >= 0,
        ;
        lemma_be_bytes_of_value(t.drop_last());
        assert(be_bytes(v, t.len()) == be_bytes(a, (t.len() - 1) as nat).push(b as u8));
        assert(t.drop_last().push(t.last()) =~= t);
    }
}

/// A header that parses is the shortest header of what it holds.
proof fn lemma_header_inverse(s: Seq<u8>, pos: int)
    requires
        parse_header(s, pos) is Some,
    ensures
        ({
            let (m, v, e) = parse_header(s, pos)->Some_0;
            &&& m < 8
            &&& v < pow256(8)
            &&& pos < e <= s.len()
            &&& e == pos + header(m, v).len()
            &&& s.subrange(pos, e) == header(m, v)
        }),
{
    lemma_pow256_values();
    let (m, v, e) = parse_header(s, pos)->Some_0;
    let b = s[pos];
    assert(b == 32 * (b / 32) + b % 32);
    assert(m < 8);
    let info = (b % 32) as nat;
    if info < 24 {
        assert(header(m, v) =~= seq![b]);
        assert(s.subrange(pos, e) =~= seq![b]);
    } else {
        let w = (e - pos - 1) as nat;
        let t = s.subrange(pos + 1, e);
        lemma_be_value_bound(t);
        lemma_be_bytes_of_value(t);
        lemma_pow256_mono(w, 8);
        assert(width_info(w) == info);
        assert(header(m, v) == seq![b] + t);
        assert(s.subrange(pos, e) =~= seq![b] + t);
    }
}

proof fn lemma_bytes_inverse(s: Seq<u8>, pos: int, n: nat)
    requires
        parse_bytes(s, pos, n) is Some,
        0 <= pos <= s.len(),
    ensures
        ({
            let (acc, e) = parse_bytes(s, pos, n)->Some_0;
            &&& acc.len() == n
            &&& pos <= e <= s.len()
            &&& s.subrange(pos, e) == byte_items(acc)
        }),
    decreases n,
{
    if n == 0 {
        assert(s.subrange(pos, pos) =~= Seq::<u8>::empty());
    } else {
        lemma_bytes_inverse(s, pos, (n - 1) as nat);
        let (acc0, p) = parse_bytes(s, pos, (n - 1) as nat)->Some_0;
        lemma_header_inverse(s, p);
        let (m, v, e) = parse_header(s, p)->Some_0;
        let acc = acc0.push(v as u8);
        assert(acc.drop_last() =~= acc0);
        assert((v as u8) as nat == v);
        assert(s.subrange(pos, e) =~= s.subrange(pos, p) + s.subrange(p, e));
    }
}

proof fn lemma_names_inverse(s: Seq<u8>, pos: int, n: nat)
    requires
        parse_names(s, pos, n) is Some,
        0 <= pos <= s.len(),
    ensures
        ({
            let (acc, e) = parse_names(s, pos, n)->Some_0;
            &&& acc.len() == n
            &&& pos <= e <= s.len()
            &&& s.subrange(pos, e) == name_items(acc)
        }),
    decreases n,
{
    if n == 0 {
        assert(s.subrange(pos, pos) =~= Seq::<u8>::empty());
    } else {
        lemma_names_inverse(s, pos, (n - 1) as nat);
        let (acc0, p) = parse_names(s, pos, (n - 1) as nat)->Some_0;
        lemma_header_inverse(s, p);
        let (m, len, e) = parse_header(s, p)->Some_0;
        let t = s.subrange(e, e + len);
        decode_utf8_encode_utf8(t);
        let x = decode_utf8(t);
        let acc = acc0.push(x);
        assert(acc.drop_last() =~= acc0);
        assert(encode_utf8(x) == t);
        assert(s.subrange(pos, e + len) =~= s.subrange(pos, p) + s.subrange(p, e) + t);
    }
}

/// The only bytes that read as a record are the encoding of that record.
pub proof fn lemma_record_inverse(s: Seq<u8>)
    requires
        parse_record(s) is Some,
    ensures
        s == record_bytes(parse_record(s)->Some_0.0, parse_record(s)->Some_0.1),
{
    let (code, deps) = parse_record(s)->Some_0;
    lemma_header_inverse(s, 0);
    let (m0, two, a) = parse_header(s, 0)->Some_0;
    lemma_header_inverse(s, a);
    let (m1, n, b) = parse_header(s, a)->Some_0;
    lemma_bytes_inverse(s, b, n);
    let (c, c_end) = parse_bytes(s, b, n)->Some_0;
    lemma_header_inverse(s, c_end);
    let (m2, k, d) = parse_header(s, c_end)->Some_0;
    lemma_names_inverse(s, d, k);
    assert(s =~= s.subrange(0, a) + s.subrange(a, b) + s.subrange(b, c_end) + s.subrange(c_end, d)
        + s.subrange(d, s.len() as int));
}

proof fn lemma_pow256_mono(i: nat, k: nat)
    requires
        i <= k,
    ensures
        pow256(i) <= pow256(k),
    decreases k,
{
    if i < k {
        lemma_pow256_mono(i, (k - 1) as nat);
    }
}

/// A record that could not be read back from its bytes.
#[derive(Debug, Clone, Copy, PartialEq, Eq)]
pub struct CodecError;

#[verifier::external_type_specification]
#[verifier::external_body]
pub struct ExCborError(serde_cbor::Error);

/// Relies on `serde_cbor::to_vec` on the pair `(code, host_modules)`: with
/// its default settings it writes a two-element array holding an array of
/// unsigned integers and an array of text strings, each with a definite
/// length and every header in its shortest form; writing into a vector
/// does not fail.
#[verifier::external_body]
fn cbor_to_vec(code: &[u8], host_modules: &[String]) -> (r: Result<Vec<u8>, serde_cbor::Error>)
    ensures
        r is Ok,
        r is Ok ==> r->Ok_0@ == record_bytes(code@, names_view(host_modules@)),
{
    serde_cbor::to_vec(&(code, host_modules))
}

/// Relies on `serde_cbor::from_slice` into `(Vec<u8>, Vec<String>)`: bytes
/// in the shortest-header form that `to_vec` writes for a pair, with
/// nothing after them, read back as that pair.
#[verifier::external_body]
fn cbor_from_slice(bytes: &[u8]) -> (r: Result<(Vec<u8>, Vec<String>), serde_cbor::Error>)
    ensures
        parse_record(bytes@) is Some ==> r is Ok && (r->Ok_0.0@, names_view(r->Ok_0.1@))
            == parse_record(bytes@)->Some_0,
{
    serde_cbor::from_slice(bytes)
}

/// The record `(code, host_modules)` in its stored form, which reads back
/// as the same record.
pub fn encode_module(code: &[u8], host_modules: &[String]) -> (r: Vec<u8>)
    ensures
        r@ == record_bytes(code@, names_view(host_modules@)),
        parse_record(r@) == Some((code@, names_view(host_modules@))),
{
    let ghost names = names_view(host_modules@);
    proof {
        lemma_pow256_values();
    }
    // Each name's UTF-8 form is a slice, so its length fits in a header.
    let mut j: usize = 0;
    while j < host_modules.len()
        invariant
            j <= host_modules@.len(),
            names == names_view(host_modules@),
            pow256(8) == 0x1_0000_0000_0000_0000,
            forall|i: int| 0 <= i < j ==> #[trigger] encode_utf8(names[i]).len() < pow256(8),
        decreases host_modules@.len() - j,
    {
        let len = host_modules[j].as_str().as_bytes().len();
        assert(len as int <= u64::MAX);
        assert(names[j as int] == host_modules@[j as int]@);
        j += 1;
    }
    let n = code.len();
    assert(n as int <= u64::MAX);
    proof {
        lemma_record_round_trip(code@, names);
    }
    match cbor_to_vec(code, host_modules) {
        Ok(bytes) => bytes,
        Err(_) => Vec::new(),
    }
}

impl<'a> WasmModuleRef<'a> {
    /// The record in its stored form.
    pub fn to_bytes(&self) -> (r: Vec<u8>)
        ensures
            r@ == record_bytes(self@.0, self@.1),
    {
        encode_module(self.code, self.host_modules)
    }
}

/// Reads a record back from its stored form; fails exactly on bytes that are
/// not the stored form of a record.
pub fn decode_module(bytes: &[u8]) -> (r: Result<WasmModule, CodecError>)
    ensures
        match r {
            Ok(m) => parse_record(bytes@) == Some(m@),
            Err(_) => parse_record(bytes@) is None,
        },
{
    match cbor_from_slice(bytes) {
        Ok((code, host_modules)) => {
            let again = encode_module(code.as_slice(), host_modules.as_slice());
            if same_bytes(again.as_slice(), bytes) {
                Ok(WasmModule { code, host_modules })
            } else {
                proof {
                    if parse_record(bytes@) is Some {
                        lemma_record_inverse(bytes@);
                    }
                }
                Err(CodecError)
            }
        },
        Err(_) => Err(CodecError),
    }
}

/// Whether two byte strings are equal.
pub(crate) fn same_bytes(a: &[u8], b: &[u8]) -> (r: bool)
    ensures
        r == (a@ == b@),
{
    if a.len() != b.len() {
        return false;
    }
    let mut i: usize = 0;
    while i < a.len()
        invariant
            i <= a@.len(),
            a@.len() == b@.len(),
            a@.subrange(0, i as int) == b@.subrange(0, i as int),
        decreases a@.len() - i,
    {
        if a[i] != b[i] {
            assert(a@[i as int] != b@[i as int]);
            return false;
        }
        assert(a@.subrange(0, i + 1) =~= a@.subrange(0, i as int).push(a@[i as int]));
        assert(b@.subrange(0, i + 1) =~= b@.subrange(0, i as int).push(b@[i as int]));
        i += 1;
    }
    assert(a@ =~= a@.subrange(0, i as int));
    assert(b@ =~= b@.subrange(0, i as int));
    true
}

} // verus!
