use vstd::prelude::*;
use vstd::string::StringSliceAdditionalSpecFns;

use crate::handle::{BlueZHandle, BlueZType};

verus! {

/// Why an object path could not be read as a handle.
#[derive(Clone, Copy, PartialEq, Eq, Structural, Hash, Debug)]
pub enum ParseError {
    /// None of `descriptor`, `char` and `service` occurs in the path.
    NoMarkerFound,
    /// A handle field is missing, or is not exactly four hexadecimal digits.
    MalformedHexField,
}

/// The text that marks an attribute of kind `t` in an object path.
pub open spec fn marker(t: BlueZType) -> Seq<u8> {
    match t {
        // "service"
        BlueZType::Service => seq![0x73, 0x65, 0x72, 0x76, 0x69, 0x63, 0x65],
        // "char"
        BlueZType::Characteristic => seq![0x63, 0x68, 0x61, 0x72],
        // "descriptor"
        BlueZType::Descriptor => seq![
            0x64, 0x65, 0x73, 0x63, 0x72, 0x69, 0x70, 0x74, 0x6f, 0x72
        ],
    }
}

/// `m` occurs in `b` at byte offset `i`.
pub open spec fn occurs_at(b: Seq<u8>, m: Seq<u8>, i: int) -> bool {
    0 <= i && i + m.len() <= b.len() && b.subrange(i, i + m.len()) == m
}

/// The first offset at or after `i` where `m` occurs in `b`.
pub open spec fn find_from(b: Seq<u8>, m: Seq<u8>, i: nat) -> Option<nat>
    decreases b.len() + 1 - i,
{
    if i + m.len() > b.len() {
        None
    } else if occurs_at(b, m, i as int) {
        Some(i)
    } else {
        find_from(b, m, i + 1)
    }
}

/// The first offset where `m` occurs in `b`.
pub open spec fn find(b: Seq<u8>, m: Seq<u8>) -> Option<nat> {
    find_from(b, m, 0)
}

/// An ASCII letter.
pub open spec fn is_letter(c: u8) -> bool {
    (0x41 <= c <= 0x5a) || (0x61 <= c <= 0x7a)
}

/// An ASCII decimal digit.
pub open spec fn is_decimal_digit(c: u8) -> bool {
    0x30 <= c <= 0x39
}

/// An ASCII hexadecimal digit, in either case.
pub open spec fn is_hex_digit(c: u8) -> bool {
    is_decimal_digit(c) || (0x61 <= c <= 0x66) || (0x41 <= c <= 0x46)
}

/// The value of a hexadecimal digit.
pub open spec fn digit_value(c: u8) -> int {
    if is_decimal_digit(c) {
        c - 0x30
    } else if 0x61 <= c <= 0x66 {
        c - 0x61 + 10
    } else {
        c - 0x41 + 10
    }
}

/// Four hexadecimal digits.
pub open spec fn is_hex_field(s: Seq<u8>) -> bool {
    s.len() == 4 && forall|k: int| 0 <= k < 4 ==> is_hex_digit(#[trigger] s[k])
}

/// The number that four hexadecimal digits spell, most significant first.
pub open spec fn field_value(s: Seq<u8>) -> int {
    4096 * digit_value(s[0]) + 256 * digit_value(s[1]) + 16 * digit_value(s[2]) + digit_value(s[3])
}

/// The handle field of exactly four hexadecimal digits that starts at
/// offset `p`: a hexadecimal digit right after them would make it wider.
pub open spec fn field_at(b: Seq<u8>, p: int) -> Option<u16> {
    if 0 <= p && p + 4 <= b.len() && is_hex_field(b.subrange(p, p + 4)) && (p + 4 == b.len()
        || !is_hex_digit(b[p + 4])) {
        Some(field_value(b.subrange(p, p + 4)) as u16)
    } else {
        None
    }
}

/// A characteristic or descriptor whose marker stands at offset `i`: its
/// own field follows the marker, and its parent's field begins five bytes
/// before it, where the layout `.../charYYYY/descriptorZZZZ` puts it.
pub open spec fn child_at(b: Seq<u8>, t: BlueZType, i: int) -> Result<BlueZHandle, ParseError> {
    match (field_at(b, i + marker(t).len()), field_at(b, i - 5)) {
        (Some(h), Some(p)) => Ok(BlueZHandle { typ: t, parent: p, handle: h }),
        _ => Err(ParseError::MalformedHexField),
    }
}

/// What the object path with bytes `b` names. The first `descriptor` wins
/// over any `char`, which wins over any `service`.
pub open spec fn parsed(b: Seq<u8>) -> Result<BlueZHandle, ParseError> {
    match find(b, marker(BlueZType::Descriptor)) {
        Some(d) => child_at(b, BlueZType::Descriptor, d as int),
        None => match find(b, marker(BlueZType::Characteristic)) {
            Some(c) => child_at(b, BlueZType::Characteristic, c as int),
            None => match find(b, marker(BlueZType::Service)) {
                Some(s) => match field_at(b, s + marker(BlueZType::Service).len() as int) {
                    Some(h) => Ok(BlueZHandle { typ: BlueZType::Service, parent: 0, handle: h }),
                    None => Err(ParseError::MalformedHexField),
                },
                None => Err(ParseError::NoMarkerFound),
            },
        },
    }
}

fn occurs_here(b: &[u8], m: &[u8], i: usize) -> (r: bool)
    requires
        i + m@.len() <= b@.len(),
    ensures
        r == occurs_at(b@, m@, i as int),
{
    let n = b.len();
    let mut k: usize = 0;
    while k < m.len()
        invariant
            i + m@.len() <= b@.len(),
            n == b@.len(),
            k <= m@.len(),
            forall|t: int| 0 <= t < k ==> b@[i + t] == m@[t],
        decreases m@.len() - k,
    {
        if b[i + k] != m[k] {
            assert(b@.subrange(i as int, i + m@.len())[k as int] != m@[k as int]);
            return false;
        }
        k = k + 1;
    }
    assert(b@.subrange(i as int, i + m@.len()) =~= m@);
    true
}

/// The first offset where `m` occurs in `b`.
fn find_marker(b: &[u8], m: &[u8]) -> (r: Option<usize>)
    ensures
        match r {
            Some(i) => find(b@, m@) == Some(i as nat) && occurs_at(b@, m@, i as int),
            None => find(b@, m@) is None,
        },
{
    if m.len() > b.len() {
        return None;
    }
    let last = b.len() - m.len();
    let mut i: usize = 0;
    loop
        invariant
            i <= last,
            last + m@.len() == b@.len(),
            find(b@, m@) == find_from(b@, m@, i as nat),
        decreases last - i,
    {
        if occurs_here(b, m, i) {
            return Some(i);
        }
        if i == last {
            assert(find_from(b@, m@, (i + 1) as nat) is None);
            return None;
        }
        i = i + 1;
    }
}

fn hex_digit(c: u8) -> (r: Option<u16>)
    ensures
        match r {
            Some(v) => is_hex_digit(c) && v == digit_value(c),
            None => !is_hex_digit(c),
        },
{
    if 0x30 <= c && c <= 0x39 {
        Some((c - 0x30) as u16)
    } else if 0x61 <= c && c <= 0x66 {
        Some((c - 0x61 + 10) as u16)
    } else if 0x41 <= c && c <= 0x46 {
        Some((c - 0x41 + 10) as u16)
    } else {
        None
    }
}

/// Reads the handle field of exactly four hexadecimal digits at offset `p`.
fn read_field(b: &[u8], p: usize) -> (r: Option<u16>)
    requires
        p <= b@.len(),
    ensures
        r == field_at(b@, p as int),
{
    if b.len() - p < 4 {
        return None;
    }
    let ghost f = b@.subrange(p as int, p + 4);
    assert(f[0] == b@[p as int] && f[1] == b@[p + 1] && f[2] == b@[p + 2] && f[3] == b@[p + 3]);
    if b.len() - p > 4 {
        if hex_digit(b[p + 4]).is_some() {
            return None;
        }
    }
    match (hex_digit(b[p]), hex_digit(b[p + 1]), hex_digit(b[p + 2]), hex_digit(b[p + 3])) {
        (Some(d0), Some(d1), Some(d2), Some(d3)) => {
            assert(is_hex_field(f));
            Some(4096 * d0 + 256 * d1 + 16 * d2 + d3)
        },
        _ => {
            assert(!is_hex_digit(f[0]) || !is_hex_digit(f[1]) || !is_hex_digit(f[2])
                || !is_hex_digit(f[3]));
            None
        },
    }
}

/// Reads the characteristic or descriptor whose marker `m` stands at `i`.
fn read_child(b: &[u8], t: BlueZType, m: &[u8], i: usize) -> (r: Result<BlueZHandle, ParseError>)
    requires
        m@ == marker(t),
        occurs_at(b@, m@, i as int),
    ensures
        r == child_at(b@, t, i as int),
{
    let n = b.len();
    assert(i + m@.len() <= n);
    if i < 5 {
        return Err(ParseError::MalformedHexField);
    }
    match (read_field(b, i + m.len()), read_field(b, i - 5)) {
        (Some(h), Some(p)) => Ok(BlueZHandle { typ: t, parent: p, handle: h }),
        _ => Err(ParseError::MalformedHexField),
    }
}

/// The marker of an attribute of kind `t`, as bytes.
fn marker_bytes(t: BlueZType) -> (r: Vec<u8>)
    ensures
        r@ == marker(t),
{
    let mut r: Vec<u8> = Vec::new();
    match t {
        BlueZType::Service => {
            let a: [u8; 7] = [0x73, 0x65, 0x72, 0x76, 0x69, 0x63, 0x65];
            r.extend_from_slice(a.as_slice());
        },
        BlueZType::Characteristic => {
            let a: [u8; 4] = [0x63, 0x68, 0x61, 0x72];
            r.extend_from_slice(a.as_slice());
        },
        BlueZType::Descriptor => {
            let a: [u8; 10] = [0x64, 0x65, 0x73, 0x63, 0x72, 0x69, 0x70, 0x74, 0x6f, 0x72];
            r.extend_from_slice(a.as_slice());
        },
    }
    assert(r@ =~= marker(t));
    r
}

impl BlueZHandle {
    /// Reads the handle that an object path such as
    /// `/org/bluez/hci0/dev_01_02_03_04_05_06/service0025/char0026` names.
    /// Each handle field is exactly four hexadecimal digits right after its
    /// marker; a parent's field is read five bytes before its child's
    /// marker. Malformed input is refused with an error, never a panic.
    pub fn parse(s: &str) -> (r: Result<BlueZHandle, ParseError>)
        ensures
            r == parsed(s.spec_bytes()),
    {
        let b = s.as_bytes();
        let descriptor = marker_bytes(BlueZType::Descriptor);
        if let Some(d) = find_marker(b, descriptor.as_slice()) {
            return read_child(b, BlueZType::Descriptor, descriptor.as_slice(), d);
        }
        let characteristic = marker_bytes(BlueZType::Characteristic);
        if let Some(c) = find_marker(b, characteristic.as_slice()) {
            return read_child(b, BlueZType::Characteristic, characteristic.as_slice(), c);
        }
        let service = marker_bytes(BlueZType::Service);
        let n = b.len();
        match find_marker(b, service.as_slice()) {
            Some(p) => {
                assert(p + service@.len() <= n);
                match read_field(b, p + service.len()) {
                    Some(h) => Ok(BlueZHandle { typ: BlueZType::Service, parent: 0, handle: h }),
                    None => Err(ParseError::MalformedHexField),
                }
            },
            None => Err(ParseError::NoMarkerFound),
        }
    }
}

impl std::str::FromStr for BlueZHandle {
    type Err = ParseError;

    fn from_str(s: &str) -> (r: Result<BlueZHandle, ParseError>)
        ensures
            r == parsed(s.spec_bytes()),
    {
        BlueZHandle::parse(s)
    }
}

/// A path separator, `/`.
pub open spec fn slash() -> Seq<u8> {
    seq![0x2f]
}

/// The lower-case hexadecimal digit for `v`, from 0 to 15.
pub open spec fn hex_digit_for(v: int) -> u8 {
    if v < 10 {
        (0x30 + v) as u8
    } else {
        (0x57 + v) as u8
    }
}

/// `v` written as four lower-case hexadecimal digits, the way the daemon
/// writes handles in its paths.
pub open spec fn hex4(v: u16) -> Seq<u8> {
    seq![
        hex_digit_for(v as int / 4096),
        hex_digit_for((v as int / 256) % 16),
        hex_digit_for((v as int / 16) % 16),
        hex_digit_for(v as int % 16),
    ]
}

/// Every 16-bit value, written as four hexadecimal digits, spells itself.
pub proof fn lemma_hex4(v: u16)
    ensures
        is_hex_field(hex4(v)),
        field_value(hex4(v)) == v,
{
    let f = hex4(v);
    let x = v as int;
    assert(x == 4096 * (x / 4096) + 256 * ((x / 256) % 16) + 16 * ((x / 16) % 16) + x % 16)
        by (nonlinear_arith)
        requires
            0 <= x < 65536,
    ;
    assert(0 <= x / 4096 < 16) by (nonlinear_arith)
        requires
            0 <= x < 65536,
    ;
    assert(is_hex_digit(f[0]) && digit_value(f[0]) == x / 4096);
    assert(is_hex_digit(f[1]) && digit_value(f[1]) == (x / 256) % 16);
    assert(is_hex_digit(f[2]) && digit_value(f[2]) == (x / 16) % 16);
    assert(is_hex_digit(f[3]) && digit_value(f[3]) == x % 16);
}

/// None of the three markers occurs in `p`.
pub open spec fn has_no_marker(p: Seq<u8>) -> bool {
    forall|t: BlueZType, j: int| !occurs_at(p, marker(t), j)
}

/// `pre/serviceA`
pub open spec fn service_path(pre: Seq<u8>, a: Seq<u8>) -> Seq<u8> {
    pre + slash() + marker(BlueZType::Service) + a
}

/// `pre/serviceA/charC`
pub open spec fn characteristic_path(pre: Seq<u8>, a: Seq<u8>, c: Seq<u8>) -> Seq<u8> {
    service_path(pre, a) + slash() + marker(BlueZType::Characteristic) + c
}

/// `pre/serviceA/charC/descriptorD`
pub open spec fn descriptor_path(pre: Seq<u8>, a: Seq<u8>, c: Seq<u8>, d: Seq<u8>) -> Seq<u8> {
    characteristic_path(pre, a, c) + slash() + marker(BlueZType::Descriptor) + d
}

proof fn lemma_marker_letters(t: BlueZType)
    ensures
        marker(t).len() >= 4,
        forall|k: int| 0 <= k < marker(t).len() ==> is_letter(#[trigger] marker(t)[k]),
{
    let m = marker(t);
    assert forall|k: int| 0 <= k < m.len() implies is_letter(#[trigger] m[k]) by {
        match t {
            BlueZType::Service => {
                assert(0 <= k < 7);
            },
            BlueZType::Characteristic => {
                assert(0 <= k < 4);
            },
            BlueZType::Descriptor => {
                assert(0 <= k < 10);
            },
        }
    }
}

proof fn lemma_find_first(b: Seq<u8>, m: Seq<u8>, i: nat, k: nat)
    requires
        i <= k,
        occurs_at(b, m, k as int),
        forall|j: int| i <= j < k ==> !occurs_at(b, m, j),
    ensures
        find_from(b, m, i) == Some(k),
    decreases k - i,
{
    if i < k {
        lemma_find_first(b, m, i + 1, k);
    }
}

proof fn lemma_find_absent(b: Seq<u8>, m: Seq<u8>, i: nat)
    requires
        forall|j: int| i <= j ==> !occurs_at(b, m, j),
    ensures
        find_from(b, m, i) is None,
    decreases b.len() + 1 - i,
{
    if i + m.len() <= b.len() {
        lemma_find_absent(b, m, i + 1);
    }
}

/// A marker cannot begin in `pre` or at the slash that ends it.
proof fn lemma_not_in_prefix(pre: Seq<u8>, rest: Seq<u8>, t: BlueZType, j: int)
    requires
        has_no_marker(pre),
        rest.len() > 0,
        rest[0] == 0x2f,
        j <= pre.len(),
    ensures
        !occurs_at(pre + rest, marker(t), j),
{
    let b = pre + rest;
    let m = marker(t);
    lemma_marker_letters(t);
    if occurs_at(b, m, j) {
        if j + m.len() <= pre.len() {
            assert(pre.subrange(j, j + m.len()) =~= b.subrange(j, j + m.len()));
            assert(occurs_at(pre, m, j));
        } else {
            let k = pre.len() - j;
            assert(b.subrange(j, j + m.len())[k] == b[pre.len() as int]);
            assert(is_letter(m[k]));
        }
    }
}

/// A field of four hexadecimal digits at `p`, ended by a slash or by the
/// end of the path.
proof fn lemma_field_at(b: Seq<u8>, p: int, f: Seq<u8>)
    requires
        0 <= p,
        p + 4 <= b.len(),
        b.subrange(p, p + 4) == f,
        is_hex_field(f),
        p + 4 == b.len() || b[p + 4] == 0x2f,
    ensures
        field_at(b, p) == Some(field_value(f) as u16),
{
}

/// The bytes of `m` where it occurs.
proof fn lemma_occurs_bytes(b: Seq<u8>, m: Seq<u8>, j: int, k: int)
    requires
        occurs_at(b, m, j),
        0 <= k < m.len(),
    ensures
        b[j + k] == m[k],
{
    assert(b.subrange(j, j + m.len())[k] == b[j + k]);
}

/// Parsing `pre/serviceA` gives the service whose handle `A` spells.
pub proof fn lemma_parse_service_path(pre: Seq<u8>, a: Seq<u8>)
    requires
        has_no_marker(pre),
        is_hex_field(a),
    ensures
        parsed(service_path(pre, a)) == Ok::<BlueZHandle, ParseError>(
            BlueZHandle { typ: BlueZType::Service, parent: 0, handle: field_value(a) as u16 },
        ),
{
    let b = service_path(pre, a);
    let n = pre.len() as int;
    let rest = slash() + marker(BlueZType::Service) + a;
    let (md, mc, ms) = (
        marker(BlueZType::Descriptor),
        marker(BlueZType::Characteristic),
        marker(BlueZType::Service),
    );
    assert(b =~= pre + rest);
    lemma_marker_letters(BlueZType::Service);
    assert forall|j: int| 0 <= j implies !occurs_at(b, md, j) by {
        if j <= n {
            lemma_not_in_prefix(pre, rest, BlueZType::Descriptor, j);
        } else if occurs_at(b, md, j) {
            lemma_occurs_bytes(b, md, j, 2);
        }
    }
    lemma_find_absent(b, md, 0);
    assert forall|j: int| 0 <= j implies !occurs_at(b, mc, j) by {
        if j <= n {
            lemma_not_in_prefix(pre, rest, BlueZType::Characteristic, j);
        } else if occurs_at(b, mc, j) {
            lemma_occurs_bytes(b, mc, j, 1);
        }
    }
    lemma_find_absent(b, mc, 0);
    assert(b.subrange(n + 1, n + 8) =~= ms);
    assert forall|j: int| 0 <= j < n + 1 implies !occurs_at(b, ms, j) by {
        lemma_not_in_prefix(pre, rest, BlueZType::Service, j);
    }
    lemma_find_first(b, ms, 0, (n + 1) as nat);
    assert(b.subrange(n + 8, n + 12) =~= a);
    lemma_field_at(b, n + 8, a);
}

/// Parsing `pre/serviceA/charC` gives the characteristic whose handle `C`
/// spells, under the service whose handle `A` spells.
pub proof fn lemma_parse_characteristic_path(pre: Seq<u8>, a: Seq<u8>, c: Seq<u8>)
    requires
        has_no_marker(pre),
        is_hex_field(a),
        is_hex_field(c),
    ensures
        parsed(characteristic_path(pre, a, c)) == Ok::<BlueZHandle, ParseError>(
            BlueZHandle {
                typ: BlueZType::Characteristic,
                parent: field_value(a) as u16,
                handle: field_value(c) as u16,
            },
        ),
{
    let b = characteristic_path(pre, a, c);
    let n = pre.len() as int;
    let rest = slash() + marker(BlueZType::Service) + a + slash() + marker(
        BlueZType::Characteristic,
    ) + c;
    let (md, mc) = (marker(BlueZType::Descriptor), marker(BlueZType::Characteristic));
    assert(b =~= pre + rest);
    lemma_marker_letters(BlueZType::Characteristic);
    assert forall|j: int| 0 <= j implies !occurs_at(b, md, j) by {
        if j <= n {
            lemma_not_in_prefix(pre, rest, BlueZType::Descriptor, j);
        } else if occurs_at(b, md, j) {
            lemma_occurs_bytes(b, md, j, 2);
        }
    }
    lemma_find_absent(b, md, 0);
    assert(b.subrange(n + 13, n + 17) =~= mc);
    assert forall|j: int| 0 <= j < n + 13 implies !occurs_at(b, mc, j) by {
        if j <= n {
            lemma_not_in_prefix(pre, rest, BlueZType::Characteristic, j);
        } else if occurs_at(b, mc, j) {
            lemma_occurs_bytes(b, mc, j, 1);
        }
    }
    lemma_find_first(b, mc, 0, (n + 13) as nat);
    assert(b.subrange(n + 17, n + 21) =~= c);
    lemma_field_at(b, n + 17, c);
    assert(b.subrange(n + 8, n + 12) =~= a);
    lemma_field_at(b, n + 8, a);
    lemma_field_at(b, n + 8, a);
}

/// Parsing `pre/serviceA/charC/descriptorD` gives the descriptor whose
/// handle `D` spells, under the characteristic whose handle `C` spells.
#[verifier::rlimit(50)]
pub proof fn lemma_parse_descriptor_path(pre: Seq<u8>, a: Seq<u8>, c: Seq<u8>, d: Seq<u8>)
    requires
        has_no_marker(pre),
        is_hex_field(a),
        is_hex_field(c),
        is_hex_field(d),
    ensures
        parsed(descriptor_path(pre, a, c, d)) == Ok::<BlueZHandle, ParseError>(
            BlueZHandle {
                typ: BlueZType::Descriptor,
                parent: field_value(c) as u16,
                handle: field_value(d) as u16,
            },
        ),
{
    let b = descriptor_path(pre, a, c, d);
    let n = pre.len() as int;
    let rest = slash() + marker(BlueZType::Service) + a + slash() + marker(
        BlueZType::Characteristic,
    ) + c + slash() + marker(BlueZType::Descriptor) + d;
    let md = marker(BlueZType::Descriptor);
    assert(b =~= pre + rest);
    lemma_marker_letters(BlueZType::Descriptor);
    assert(b.subrange(n + 22, n + 32) =~= md);
    assert forall|j: int| 0 <= j < n + 22 implies !occurs_at(b, md, j) by {
        if j <= n {
            lemma_not_in_prefix(pre, rest, BlueZType::Descriptor, j);
        } else if occurs_at(b, md, j) {
            lemma_occurs_bytes(b, md, j, 2);
        }
    }
    lemma_find_first(b, md, 0, (n + 22) as nat);
    assert(b.subrange(n + 32, n + 36) =~= d);
    lemma_field_at(b, n + 32, d);
    assert(b.subrange(n + 17, n + 21) =~= c);
    lemma_field_at(b, n + 17, c);
}

/// For all handles `a`, the path `pre/serviceAAAA` with `a` written in
/// hexadecimal parses to the service with handle `a`.
pub proof fn lemma_parse_service(pre: Seq<u8>, a: u16)
    requires
        has_no_marker(pre),
    ensures
        parsed(service_path(pre, hex4(a))) == Ok::<BlueZHandle, ParseError>(
            BlueZHandle { typ: BlueZType::Service, parent: 0, handle: a },
        ),
{
    lemma_hex4(a);
    lemma_parse_service_path(pre, hex4(a));
}

/// For all handles `a` and `c`, the path `pre/serviceAAAA/charCCCC` parses to
/// the characteristic with handle `c` under the service with handle `a`.
pub proof fn lemma_parse_characteristic(pre: Seq<u8>, a: u16, c: u16)
    requires
        has_no_marker(pre),
    ensures
        parsed(characteristic_path(pre, hex4(a), hex4(c))) == Ok::<BlueZHandle, ParseError>(
            BlueZHandle { typ: BlueZType::Characteristic, parent: a, handle: c },
        ),
{
    lemma_hex4(a);
    lemma_hex4(c);
    lemma_parse_characteristic_path(pre, hex4(a), hex4(c));
}

/// For all handles `a`, `c` and `d`, the path
/// `pre/serviceAAAA/charCCCC/descriptorDDDD` parses to the descriptor with
/// handle `d` under the characteristic with handle `c`.
pub proof fn lemma_parse_descriptor(pre: Seq<u8>, a: u16, c: u16, d: u16)
    requires
        has_no_marker(pre),
    ensures
        parsed(descriptor_path(pre, hex4(a), hex4(c), hex4(d))) == Ok::<BlueZHandle, ParseError>(
            BlueZHandle { typ: BlueZType::Descriptor, parent: c, handle: d },
        ),
{
    lemma_hex4(a);
    lemma_hex4(c);
    lemma_hex4(d);
    lemma_parse_descriptor_path(pre, hex4(a), hex4(c), hex4(d));
}

/// A path in which none of the three markers occurs is refused as such, and
/// only such a path.
pub proof fn lemma_parse_without_marker(b: Seq<u8>)
    ensures
        parsed(b) == Err::<BlueZHandle, ParseError>(ParseError::NoMarkerFound) <==> has_no_marker(b),
{
    if has_no_marker(b) {
        lemma_find_absent(b, marker(BlueZType::Descriptor), 0);
        lemma_find_absent(b, marker(BlueZType::Characteristic), 0);
        lemma_find_absent(b, marker(BlueZType::Service), 0);
    } else {
        let (t, j) = choose|t: BlueZType, j: int| occurs_at(b, marker(t), j);
        lemma_find_present(b, marker(t), 0, j as nat);
    }
}

proof fn lemma_find_present(b: Seq<u8>, m: Seq<u8>, i: nat, k: nat)
    requires
        i <= k,
        occurs_at(b, m, k as int),
    ensures
        find_from(b, m, i) is Some,
    decreases k - i,
{
    if i < k && !occurs_at(b, m, i as int) {
        lemma_find_present(b, m, i + 1, k);
    }
}

} // verus!
