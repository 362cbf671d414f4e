//! Inbound events and their wire representation.
//!
//! An event is pushed to a connection as a self-describing structured text
//! record with the fields `type`, `version`, `payload`, `created_at` and
//! `created_at_micros`. The encoder below builds that record byte by byte;
//! its output is pinned down exactly by [`spec_wire`].

use vstd::prelude::*;
use vstd::utf8::encode_utf8;

verus! {

broadcast use vstd::seq::group_seq_axioms;

/// An inbound message to be routed.
///
/// The payload is an opaque structured value; the library carries it as the
/// text it was decoded from and embeds that text verbatim in the wire record.
pub struct Event {
    /// The type tag.
    pub type_alias: String,
    /// The schema version.
    pub version: u32,
    /// The opaque structured payload, as structured text.
    pub payload: String,
    /// The creation timestamp, human-readable.
    pub created_at: String,
    /// The creation timestamp, in microseconds.
    pub created_at_micros: u64,
}

/// The mathematical model of an event: each text field as the byte
/// sequence it is transported as.
#[verifier::ext_equal]
pub struct EventModel {
    pub type_alias: Seq<u8>,
    pub version: u32,
    pub payload: Seq<u8>,
    pub created_at: Seq<u8>,
    pub created_at_micros: u64,
}

impl View for Event {
    type V = EventModel;

    open spec fn view(&self) -> EventModel {
        EventModel {
            type_alias: encode_utf8(self.type_alias@),
            version: self.version,
            payload: encode_utf8(self.payload@),
            created_at: encode_utf8(self.created_at@),
            created_at_micros: self.created_at_micros,
        }
    }
}

/// How one byte of a quoted text field is written: a quote or a backslash
/// gets a backslash before it, every other byte stands as it is.
pub open spec fn spec_escape_byte(b: u8) -> Seq<u8> {
    if b == 34 {
        seq![92u8, 34u8]
    } else if b == 92 {
        seq![92u8, 92u8]
    } else {
        seq![b]
    }
}

/// The escaped form of a whole text field.
pub open spec fn spec_escape(s: Seq<u8>) -> Seq<u8>
    decreases s.len(),
{
    if s.len() == 0 {
        Seq::empty()
    } else {
        spec_escape_byte(s[0]) + spec_escape(s.skip(1))
    }
}

/// The decimal digits of a number, most significant first, no sign and no
/// leading zero (the number zero is the single digit `0`).
pub open spec fn spec_decimal(n: nat) -> Seq<u8>
    decreases n,
{
    if n < 10 {
        seq![(48 + n) as u8]
    } else {
        spec_decimal(n / 10) + seq![(48 + n % 10) as u8]
    }
}

/// The bytes of `{"type":"`.
pub open spec fn lit_open_type() -> Seq<u8> {
    seq![123u8, 34u8, 116u8, 121u8, 112u8, 101u8, 34u8, 58u8, 34u8]
}

/// The bytes of `","version":`.
pub open spec fn lit_sep_version() -> Seq<u8> {
    seq![34u8, 44u8, 34u8, 118u8, 101u8, 114u8, 115u8, 105u8, 111u8, 110u8, 34u8, 58u8]
}

/// The bytes of `,"payload":`.
pub open spec fn lit_sep_payload() -> Seq<u8> {
    seq![44u8, 34u8, 112u8, 97u8, 121u8, 108u8, 111u8, 97u8, 100u8, 34u8, 58u8]
}

/// The bytes of `,"created_at":"`.
pub open spec fn lit_sep_created_at() -> Seq<u8> {
    seq![44u8, 34u8, 99u8, 114u8, 101u8, 97u8, 116u8, 101u8, 100u8, 95u8, 97u8, 116u8, 34u8, 58u8, 34u8]
}

/// The bytes of `","created_at_micros":`.
pub open spec fn lit_sep_micros() -> Seq<u8> {
    seq![34u8, 44u8, 34u8, 99u8, 114u8, 101u8, 97u8, 116u8, 101u8, 100u8, 95u8, 97u8, 116u8, 95u8,
        109u8, 105u8, 99u8, 114u8, 111u8, 115u8, 34u8, 58u8]
}

/// The bytes of `}`.
pub open spec fn lit_close() -> Seq<u8> {
    seq![125u8]
}

/// The wire record of an event: every field of the model appears, under its
/// fixed name, and nothing else does.
pub open spec fn spec_wire(e: EventModel) -> Seq<u8> {
    lit_open_type() + spec_escape(e.type_alias) + lit_sep_version() + spec_decimal(
        e.version as nat,
    ) + lit_sep_payload() + e.payload + lit_sep_created_at() + spec_escape(e.created_at)
        + lit_sep_micros() + spec_decimal(e.created_at_micros as nat) + lit_close()
}

/// A byte sequence made of whole escape units: a backslash followed by a
/// quote or a backslash, or a single byte that is neither. A raw quote
/// never opens a unit, so the first quote after such a region cannot lie
/// inside it.
pub open spec fn esc_closed(t: Seq<u8>) -> bool
    decreases t.len(),
{
    if t.len() == 0 {
        true
    } else if t[0] == 92 {
        t.len() >= 2 && (t[1] == 34 || t[1] == 92) && esc_closed(t.skip(2))
    } else if t[0] == 34 {
        false
    } else {
        esc_closed(t.skip(1))
    }
}

/// Escaped text is made of whole escape units.
proof fn lemma_escape_closed(s: Seq<u8>)
    ensures
        esc_closed(spec_escape(s)),
    decreases s.len(),
{
    if s.len() == 0 {
    } else {
        lemma_escape_closed(s.skip(1));
        let t = spec_escape(s);
        if s[0] == 34 || s[0] == 92 {
            assert(t.skip(2) =~= spec_escape(s.skip(1)));
        } else {
            assert(t.skip(1) =~= spec_escape(s.skip(1)));
        }
    }
}

/// In a region of whole escape units, every quote byte is directly
/// preceded by a backslash.
proof fn lemma_esc_closed_quote(t: Seq<u8>, j: int)
    requires
        esc_closed(t),
        0 <= j < t.len(),
        t[j] == 34,
    ensures
        j >= 1,
        t[j - 1] == 92,
    decreases t.len(),
{
    if t[0] == 92 {
        if j >= 2 {
            assert(t.skip(2)[j - 2] == 34);
            lemma_esc_closed_quote(t.skip(2), j - 2);
        }
    } else {
        assert(j >= 1);
        assert(t.skip(1)[j - 1] == 34);
        lemma_esc_closed_quote(t.skip(1), j - 1);
    }
}

/// Two sequences with equal openings and equal remainders past `k` are
/// equal.
proof fn lemma_head_skip_eq(a1: Seq<u8>, a2: Seq<u8>, k: int)
    requires
        0 <= k <= a1.len(),
        k <= a2.len(),
        forall|i: int| 0 <= i < k ==> a1[i] == a2[i],
        a1.skip(k) == a2.skip(k),
    ensures
        a1 == a2,
{
    assert(a1.skip(k).len() == a1.len() - k);
    assert(a2.skip(k).len() == a2.len() - k);
    assert forall|i: int| 0 <= i < a1.len() implies a1[i] == a2[i] by {
        if i >= k {
            assert(a1[i] == a1.skip(k)[i - k]);
            assert(a2[i] == a2.skip(k)[i - k]);
        }
    }
    assert(a1 =~= a2);
}

/// Two equal concatenations whose left parts are made of whole escape
/// units and whose right parts open with a raw quote split at the same
/// place.
proof fn lemma_split_esc_start(a1: Seq<u8>, r1: Seq<u8>, a2: Seq<u8>, r2: Seq<u8>)
    requires
        a1 + r1 == a2 + r2,
        esc_closed(a1),
        esc_closed(a2),
        r1.len() > 0,
        r1[0] == 34,
        r2.len() > 0,
        r2[0] == 34,
    ensures
        a1 == a2,
        r1 == r2,
    decreases a1.len(),
{
    if a1.len() == 0 {
        if a2.len() > 0 {
            assert(a2[0] == (a1 + r1)[0]);
            assert(a2[0] == 34);
            assert(false);
        }
        assert(a1 =~= a2);
        assert(r1 =~= r2);
    } else if a2.len() == 0 {
        assert(a1[0] == (a2 + r2)[0]);
        assert(a1[0] == 34);
        assert(false);
    } else if a1[0] == 92 {
        assert(a2[0] == (a1 + r1)[0]);
        assert(a2[0] == 92);
        assert(a1[1] == (a1 + r1)[1]);
        assert(a2[1] == (a2 + r2)[1]);
        assert(a1.skip(2) + r1 =~= (a1 + r1).skip(2));
        assert(a2.skip(2) + r2 =~= (a2 + r2).skip(2));
        lemma_split_esc_start(a1.skip(2), r1, a2.skip(2), r2);
        lemma_head_skip_eq(a1, a2, 2);
    } else {
        assert(a2[0] == (a1 + r1)[0]);
        assert(a2[0] == a1[0]);
        assert(a1.skip(1) + r1 =~= (a1 + r1).skip(1));
        assert(a2.skip(1) + r2 =~= (a2 + r2).skip(1));
        lemma_split_esc_start(a1.skip(1), r1, a2.skip(1), r2);
        lemma_head_skip_eq(a1, a2, 1);
    }
}

/// Two equal concatenations whose right parts are made of whole escape
/// units and whose left parts close with `:"` split at the same place.
proof fn lemma_split_esc_end(x1: Seq<u8>, c1: Seq<u8>, x2: Seq<u8>, c2: Seq<u8>)
    requires
        x1 + c1 == x2 + c2,
        esc_closed(c1),
        esc_closed(c2),
        x1.len() >= 2,
        x1[x1.len() - 1] == 34,
        x1[x1.len() - 2] == 58,
        x2.len() >= 2,
        x2[x2.len() - 1] == 34,
        x2[x2.len() - 2] == 58,
    ensures
        x1 == x2,
        c1 == c2,
{
    assert((x1 + c1).len() == x1.len() + c1.len());
    assert((x2 + c2).len() == x2.len() + c2.len());
    assert(x1.len() + c1.len() == x2.len() + c2.len());
    if c1.len() < c2.len() {
        let p = x1.len() - 1;
        assert((x1 + c1)[p] == x1[p]);
        assert((x1 + c1)[p - 1] == x1[p - 1]);
        let j = p - x2.len();
        assert(0 <= j < c2.len());
        assert((x2 + c2)[p] == c2[j]);
        assert(c2[j] == 34);
        lemma_esc_closed_quote(c2, j);
        assert((x2 + c2)[p - 1] == c2[j - 1]);
        assert(false);
    } else if c2.len() < c1.len() {
        let p = x2.len() - 1;
        assert((x2 + c2)[p] == x2[p]);
        assert((x2 + c2)[p - 1] == x2[p - 1]);
        let j = p - x1.len();
        assert(0 <= j < c1.len());
        assert((x1 + c1)[p] == c1[j]);
        assert(c1[j] == 34);
        lemma_esc_closed_quote(c1, j);
        assert((x1 + c1)[p - 1] == c1[j - 1]);
        assert(false);
    } else {
        assert forall|i: int| 0 <= i < c1.len() implies c1[i] == c2[i] by {
            assert(c1[i] == (x1 + c1)[x1.len() + i]);
        }
        assert(c1 =~= c2);
        assert forall|i: int| 0 <= i < x1.len() implies x1[i] == x2[i] by {
            assert(x1[i] == (x1 + c1)[i]);
        }
        assert(x1 =~= x2);
    }
}

/// Whether a byte is a decimal digit.
pub open spec fn is_digit(b: u8) -> bool {
    48 <= b <= 57
}

/// Decimal renderings are nonempty and all digits.
proof fn lemma_decimal_digits(n: nat)
    ensures
        spec_decimal(n).len() >= 1,
        forall|i: int| 0 <= i < spec_decimal(n).len() ==> is_digit(#[trigger] spec_decimal(n)[i]),
    decreases n,
{
    if n < 10 {
    } else {
        lemma_decimal_digits(n / 10);
    }
}

/// Two equal concatenations whose left parts are all digits and whose
/// right parts open with a non-digit split at the same place.
proof fn lemma_split_digits_start(a1: Seq<u8>, r1: Seq<u8>, a2: Seq<u8>, r2: Seq<u8>)
    requires
        a1 + r1 == a2 + r2,
        forall|i: int| 0 <= i < a1.len() ==> is_digit(#[trigger] a1[i]),
        forall|i: int| 0 <= i < a2.len() ==> is_digit(#[trigger] a2[i]),
        r1.len() > 0,
        !is_digit(r1[0]),
        r2.len() > 0,
        !is_digit(r2[0]),
    ensures
        a1 == a2,
        r1 == r2,
{
    assert((a1 + r1).len() == a1.len() + r1.len());
    assert((a2 + r2).len() == a2.len() + r2.len());
    assert(a1.len() + r1.len() == a2.len() + r2.len());
    if a1.len() < a2.len() {
        assert((a1 + r1)[a1.len() as int] == r1[0]);
        assert((a2 + r2)[a1.len() as int] == a2[a1.len() as int]);
        assert(false);
    } else if a2.len() < a1.len() {
        assert((a2 + r2)[a2.len() as int] == r2[0]);
        assert((a1 + r1)[a2.len() as int] == a1[a2.len() as int]);
        assert(false);
    } else {
        assert forall|i: int| 0 <= i < a1.len() implies a1[i] == a2[i] by {
            assert(a1[i] == (a1 + r1)[i]);
            assert(a2[i] == (a2 + r2)[i]);
        }
        assert(a1 =~= a2);
        assert forall|i: int| 0 <= i < r1.len() implies r1[i] == r2[i] by {
            assert(r1[i] == (a1 + r1)[a1.len() + i]);
            assert(r2[i] == (a2 + r2)[a2.len() + i]);
        }
        assert(r1 =~= r2);
    }
}

/// Two equal concatenations whose right parts are all digits and whose
/// left parts close with a non-digit split at the same place.
proof fn lemma_split_digits_end(x1: Seq<u8>, m1: Seq<u8>, x2: Seq<u8>, m2: Seq<u8>)
    requires
        x1 + m1 == x2 + m2,
        forall|i: int| 0 <= i < m1.len() ==> is_digit(#[trigger] m1[i]),
        forall|i: int| 0 <= i < m2.len() ==> is_digit(#[trigger] m2[i]),
        x1.len() >= 1,
        !is_digit(x1[x1.len() - 1]),
        x2.len() >= 1,
        !is_digit(x2[x2.len() - 1]),
    ensures
        x1 == x2,
        m1 == m2,
{
    assert((x1 + m1).len() == x1.len() + m1.len());
    assert((x2 + m2).len() == x2.len() + m2.len());
    assert(x1.len() + m1.len() == x2.len() + m2.len());
    if m1.len() < m2.len() {
        let p = x1.len() - 1;
        assert((x1 + m1)[p] == x1[p]);
        assert(0 <= p - x2.len() < m2.len());
        assert((x2 + m2)[p] == m2[p - x2.len()]);
        assert(false);
    } else if m2.len() < m1.len() {
        let p = x2.len() - 1;
        assert((x2 + m2)[p] == x2[p]);
        assert(0 <= p - x1.len() < m1.len());
        assert((x1 + m1)[p] == m1[p - x1.len()]);
        assert(false);
    } else {
        assert forall|i: int| 0 <= i < m1.len() implies m1[i] == m2[i] by {
            assert(m1[i] == (x1 + m1)[x1.len() + i]);
            assert(m2[i] == (x2 + m2)[x2.len() + i]);
        }
        assert(m1 =~= m2);
        assert forall|i: int| 0 <= i < x1.len() implies x1[i] == x2[i] by {
            assert(x1[i] == (x1 + m1)[i]);
            assert(x2[i] == (x2 + m2)[i]);
        }
        assert(x1 =~= x2);
    }
}

/// Equal concatenations with the same known left part have equal right
/// parts.
proof fn lemma_cancel_prefix(x: Seq<u8>, r1: Seq<u8>, r2: Seq<u8>)
    requires
        x + r1 == x + r2,
    ensures
        r1 == r2,
{
    assert((x + r1).len() == x.len() + r1.len());
    assert((x + r2).len() == x.len() + r2.len());
    assert(r1.len() == r2.len());
    assert forall|i: int| 0 <= i < r1.len() implies r1[i] == r2[i] by {
        assert(r1[i] == (x + r1)[x.len() + i]);
        assert(r2[i] == (x + r2)[x.len() + i]);
    }
    assert(r1 =~= r2);
}

/// Equal concatenations with the same known right part have equal left
/// parts.
proof fn lemma_cancel_suffix(p1: Seq<u8>, p2: Seq<u8>, x: Seq<u8>)
    requires
        p1 + x == p2 + x,
    ensures
        p1 == p2,
{
    assert((p1 + x).len() == p1.len() + x.len());
    assert((p2 + x).len() == p2.len() + x.len());
    assert(p1.len() == p2.len());
    assert forall|i: int| 0 <= i < p1.len() implies p1[i] == p2[i] by {
        assert(p1[i] == (p1 + x)[i]);
        assert(p2[i] == (p2 + x)[i]);
    }
    assert(p1 =~= p2);
}

/// Escaping loses nothing: equal escaped forms come from equal texts.
pub proof fn lemma_escape_injective(s1: Seq<u8>, s2: Seq<u8>)
    requires
        spec_escape(s1) == spec_escape(s2),
    ensures
        s1 == s2,
    decreases s1.len(),
{
    if s1.len() == 0 {
        if s2.len() > 0 {
            assert(spec_escape(s2).len() >= spec_escape_byte(s2[0]).len());
            assert(false);
        }
        assert(s1 =~= s2);
    } else if s2.len() == 0 {
        assert(spec_escape(s1).len() >= spec_escape_byte(s1[0]).len());
        assert(false);
    } else {
        let e1 = spec_escape(s1);
        let e2 = spec_escape(s2);
        if s1[0] == 34 || s1[0] == 92 {
            assert(e1[0] == 92);
            if !(s2[0] == 34 || s2[0] == 92) {
                assert(e2[0] == s2[0]);
                assert(false);
            }
            assert(e1[1] == s1[0]);
            assert(e2[1] == s2[0]);
            assert(e1.skip(2) =~= spec_escape(s1.skip(1)));
            assert(e2.skip(2) =~= spec_escape(s2.skip(1)));
            lemma_escape_injective(s1.skip(1), s2.skip(1));
            lemma_head_skip_eq(s1, s2, 1);
        } else {
            assert(e1[0] == s1[0]);
            if s2[0] == 34 || s2[0] == 92 {
                assert(e2[0] == 92);
                assert(false);
            }
            assert(e2[0] == s2[0]);
            assert(e1.skip(1) =~= spec_escape(s1.skip(1)));
            assert(e2.skip(1) =~= spec_escape(s2.skip(1)));
            lemma_escape_injective(s1.skip(1), s2.skip(1));
            lemma_head_skip_eq(s1, s2, 1);
        }
    }
}

/// Decimal rendering loses nothing: equal digit strings come from equal
/// numbers.
pub proof fn lemma_decimal_injective(n1: nat, n2: nat)
    requires
        spec_decimal(n1) == spec_decimal(n2),
    ensures
        n1 == n2,
    decreases n1,
{
    let d1 = spec_decimal(n1);
    let d2 = spec_decimal(n2);
    lemma_decimal_digits(n1);
    lemma_decimal_digits(n2);
    assert(d1[d1.len() - 1] == 48 + n1 % 10);
    assert(d2[d2.len() - 1] == 48 + n2 % 10);
    assert(n1 % 10 == n2 % 10);
    if n1 < 10 && n2 < 10 {
        assert(n1 == n1 % 10) by (nonlinear_arith)
            requires
                n1 < 10,
        ;
        assert(n2 == n2 % 10) by (nonlinear_arith)
            requires
                n2 < 10,
        ;
    } else if n1 < 10 {
        assert(d1.len() == 1);
        assert(d2.len() == spec_decimal(n2 / 10).len() + 1);
        lemma_decimal_digits(n2 / 10);
        assert(false);
    } else if n2 < 10 {
        assert(d2.len() == 1);
        assert(d1.len() == spec_decimal(n1 / 10).len() + 1);
        lemma_decimal_digits(n1 / 10);
        assert(false);
    } else {
        assert(d1.subrange(0, d1.len() - 1) =~= spec_decimal(n1 / 10));
        assert(d2.subrange(0, d2.len() - 1) =~= spec_decimal(n2 / 10));
        lemma_decimal_injective(n1 / 10, n2 / 10);
        assert(n1 == 10 * (n1 / 10) + n1 % 10) by (nonlinear_arith);
        assert(n2 == 10 * (n2 / 10) + n2 % 10) by (nonlinear_arith);
    }
}

/// The wire record from the type field on.
pub open spec fn wire_from_type(e: EventModel) -> Seq<u8> {
    spec_escape(e.type_alias) + wire_from_version(e)
}

/// The wire record from the version separator on.
pub open spec fn wire_from_version(e: EventModel) -> Seq<u8> {
    lit_sep_version() + (spec_decimal(e.version as nat) + wire_from_payload(e))
}

/// The wire record from the payload separator on.
pub open spec fn wire_from_payload(e: EventModel) -> Seq<u8> {
    lit_sep_payload() + (e.payload + wire_from_created_at(e))
}

/// The wire record from the creation-time separator on.
pub open spec fn wire_from_created_at(e: EventModel) -> Seq<u8> {
    lit_sep_created_at() + (spec_escape(e.created_at) + wire_from_micros(e))
}

/// The wire record from the microsecond separator on.
pub open spec fn wire_from_micros(e: EventModel) -> Seq<u8> {
    lit_sep_micros() + (spec_decimal(e.created_at_micros as nat) + lit_close())
}

/// The wire record preserves every field of the event bit for bit: two
/// events with the same wire record are the same event, whatever their
/// payloads hold.
#[verifier::rlimit(100)]
pub proof fn lemma_wire_injective(e1: EventModel, e2: EventModel)
    requires
        spec_wire(e1) == spec_wire(e2),
    ensures
        e1 == e2,
{
    assert(spec_wire(e1) =~= lit_open_type() + wire_from_type(e1));
    assert(spec_wire(e2) =~= lit_open_type() + wire_from_type(e2));
    lemma_cancel_prefix(lit_open_type(), wire_from_type(e1), wire_from_type(e2));

    lemma_escape_closed(e1.type_alias);
    lemma_escape_closed(e2.type_alias);
    assert(wire_from_version(e1)[0] == 34);
    assert(wire_from_version(e2)[0] == 34);
    lemma_split_esc_start(
        spec_escape(e1.type_alias),
        wire_from_version(e1),
        spec_escape(e2.type_alias),
        wire_from_version(e2),
    );
    lemma_escape_injective(e1.type_alias, e2.type_alias);

    lemma_cancel_prefix(
        lit_sep_version(),
        spec_decimal(e1.version as nat) + wire_from_payload(e1),
        spec_decimal(e2.version as nat) + wire_from_payload(e2),
    );
    lemma_decimal_digits(e1.version as nat);
    lemma_decimal_digits(e2.version as nat);
    assert(wire_from_payload(e1)[0] == 44);
    assert(wire_from_payload(e2)[0] == 44);
    lemma_split_digits_start(
        spec_decimal(e1.version as nat),
        wire_from_payload(e1),
        spec_decimal(e2.version as nat),
        wire_from_payload(e2),
    );
    lemma_decimal_injective(e1.version as nat, e2.version as nat);

    lemma_cancel_prefix(
        lit_sep_payload(),
        e1.payload + wire_from_created_at(e1),
        e2.payload + wire_from_created_at(e2),
    );

    // From here the record is pinned down from its right end.
    let y1 = e1.payload + lit_sep_created_at() + spec_escape(e1.created_at) + lit_sep_micros()
        + spec_decimal(e1.created_at_micros as nat);
    let y2 = e2.payload + lit_sep_created_at() + spec_escape(e2.created_at) + lit_sep_micros()
        + spec_decimal(e2.created_at_micros as nat);
    assert(e1.payload + wire_from_created_at(e1) =~= y1 + lit_close());
    assert(e2.payload + wire_from_created_at(e2) =~= y2 + lit_close());
    lemma_cancel_suffix(y1, y2, lit_close());

    let z1 = e1.payload + lit_sep_created_at() + spec_escape(e1.created_at) + lit_sep_micros();
    let z2 = e2.payload + lit_sep_created_at() + spec_escape(e2.created_at) + lit_sep_micros();
    lemma_decimal_digits(e1.created_at_micros as nat);
    lemma_decimal_digits(e2.created_at_micros as nat);
    assert(z1[z1.len() - 1] == 58);
    assert(z2[z2.len() - 1] == 58);
    lemma_split_digits_end(
        z1,
        spec_decimal(e1.created_at_micros as nat),
        z2,
        spec_decimal(e2.created_at_micros as nat),
    );
    lemma_decimal_injective(e1.created_at_micros as nat, e2.created_at_micros as nat);

    let w1 = e1.payload + lit_sep_created_at() + spec_escape(e1.created_at);
    let w2 = e2.payload + lit_sep_created_at() + spec_escape(e2.created_at);
    assert(z1 =~= w1 + lit_sep_micros());
    assert(z2 =~= w2 + lit_sep_micros());
    lemma_cancel_suffix(w1, w2, lit_sep_micros());

    let x1 = e1.payload + lit_sep_created_at();
    let x2 = e2.payload + lit_sep_created_at();
    assert(w1 =~= x1 + spec_escape(e1.created_at));
    assert(w2 =~= x2 + spec_escape(e2.created_at));
    lemma_escape_closed(e1.created_at);
    lemma_escape_closed(e2.created_at);
    assert(x1[x1.len() - 1] == 34);
    assert(x1[x1.len() - 2] == 58);
    assert(x2[x2.len() - 1] == 34);
    assert(x2[x2.len() - 2] == 58);
    lemma_split_esc_end(x1, spec_escape(e1.created_at), x2, spec_escape(e2.created_at));
    lemma_escape_injective(e1.created_at, e2.created_at);

    lemma_cancel_suffix(e1.payload, e2.payload, lit_sep_created_at());
    assert(e1 =~= e2);
}

/// Escaping a sequence one byte longer appends that byte's escaped form.
pub proof fn lemma_escape_push(s: Seq<u8>, b: u8)
    ensures
        spec_escape(s.push(b)) == spec_escape(s) + spec_escape_byte(b),
    decreases s.len(),
{
    if s.len() == 0 {
        assert(s.push(b).skip(1) =~= Seq::<u8>::empty());
        assert(s.push(b)[0] == b);
        assert(spec_escape(Seq::<u8>::empty()) =~= Seq::<u8>::empty());
        assert(spec_escape(s.push(b)) =~= spec_escape(s) + spec_escape_byte(b));
    } else {
        assert(s.push(b).skip(1) =~= s.skip(1).push(b));
        assert(s.push(b)[0] == s[0]);
        lemma_escape_push(s.skip(1), b);
        assert(spec_escape(s.push(b)) =~= spec_escape(s) + spec_escape_byte(b));
    }
}

/// Append the escaped form of `src` to `out`.
fn escape_into(out: &mut Vec<u8>, src: &[u8])
    ensures
        final(out)@ == old(out)@ + spec_escape(src@),
{
    let n = src.len();
    let mut i: usize = 0;
    while i < n
        invariant
            n == src@.len(),
            i <= n,
            out@ == old(out)@ + spec_escape(src@.subrange(0, i as int)),
        decreases n - i,
    {
        let b = src[i];
        if b == 34 || b == 92 {
            out.push(92);
        }
        out.push(b);
        proof {
            lemma_escape_push(src@.subrange(0, i as int), src@[i as int]);
            assert(src@.subrange(0, i as int).push(src@[i as int]) =~= src@.subrange(
                0,
                i as int + 1,
            ));
        }
        i = i + 1;
    }
    proof {
        assert(src@.subrange(0, n as int) =~= src@);
    }
}

/// Append the decimal digits of `n` to `out`.
fn decimal_into(out: &mut Vec<u8>, n: u64)
    ensures
        final(out)@ == old(out)@ + spec_decimal(n as nat),
    decreases n,
{
    if n < 10 {
        out.push(48 + (n as u8));
        assert(out@ =~= old(out)@ + spec_decimal(n as nat));
    } else {
        decimal_into(out, n / 10);
        out.push(48 + ((n % 10) as u8));
        assert(out@ =~= old(out)@ + spec_decimal(n as nat));
    }
}

impl Event {
    /// Build an event from its five fields.
    pub fn new(
        type_alias: String,
        version: u32,
        payload: String,
        created_at: String,
        created_at_micros: u64,
    ) -> (e: Event)
        ensures
            e.type_alias == type_alias,
            e.version == version,
            e.payload == payload,
            e.created_at == created_at,
            e.created_at_micros == created_at_micros,
    {
        Event { type_alias, version, payload, created_at, created_at_micros }
    }

    /// Serialize the event into its wire record.
    pub fn encode(&self) -> (wire: Vec<u8>)
        ensures
            wire@ == spec_wire(self@),
    {
        let mut out: Vec<u8> = Vec::new();
        push_open_type(&mut out);
        escape_into(&mut out, self.type_alias.as_str().as_bytes());
        push_sep_version(&mut out);
        decimal_into(&mut out, self.version as u64);
        push_sep_payload(&mut out);
        let payload_bytes = self.payload.as_str().as_bytes();
        out.extend_from_slice(payload_bytes);
        proof {
            assert(out@ =~= wire_through_payload(self@));
        }
        push_sep_created_at(&mut out);
        escape_into(&mut out, self.created_at.as_str().as_bytes());
        push_sep_micros(&mut out);
        decimal_into(&mut out, self.created_at_micros);
        out.push(125);
        proof {
            assert(out@ =~= spec_wire(self@));
        }
        out
    }
}

/// The wire record up to and including the payload field.
spec fn wire_through_payload(e: EventModel) -> Seq<u8> {
    lit_open_type() + spec_escape(e.type_alias) + lit_sep_version() + spec_decimal(
        e.version as nat,
    ) + lit_sep_payload() + e.payload
}

/// Append the bytes of `{"type":"`.
fn push_open_type(out: &mut Vec<u8>)
    ensures
        final(out)@ == old(out)@ + lit_open_type(),
{
    out.push(123);
    out.push(34);
    out.push(116);
    out.push(121);
    out.push(112);
    out.push(101);
    out.push(34);
    out.push(58);
    out.push(34);
    assert(out@ =~= old(out)@ + lit_open_type());
}

/// Append the bytes of `","version":`.
fn push_sep_version(out: &mut Vec<u8>)
    ensures
        final(out)@ == old(out)@ + lit_sep_version(),
{
    out.push(34);
    out.push(44);
    out.push(34);
    out.push(118);
    out.push(101);
    out.push(114);
    out.push(115);
    out.push(105);
    out.push(111);
    out.push(110);
    out.push(34);
    out.push(58);
    assert(out@ =~= old(out)@ + lit_sep_version());
}

/// Append the bytes of `,"payload":`.
fn push_sep_payload(out: &mut Vec<u8>)
    ensures
        final(out)@ == old(out)@ + lit_sep_payload(),
{
    out.push(44);
    out.push(34);
    out.push(112);
    out.push(97);
    out.push(121);
    out.push(108);
    out.push(111);
    out.push(97);
    out.push(100);
    out.push(34);
    out.push(58);
    assert(out@ =~= old(out)@ + lit_sep_payload());
}

/// Append the bytes of `,"created_at":"`.
fn push_sep_created_at(out: &mut Vec<u8>)
    ensures
        final(out)@ == old(out)@ + lit_sep_created_at(),
{
    out.push(44);
    out.push(34);
    out.push(99);
    out.push(114);
    out.push(101);
    out.push(97);
    out.push(116);
    out.push(101);
    out.push(100);
    out.push(95);
    out.push(97);
    out.push(116);
    out.push(34);
    out.push(58);
    out.push(34);
    assert(out@ =~= old(out)@ + lit_sep_created_at());
}

/// Append the bytes of `","created_at_micros":`.
fn push_sep_micros(out: &mut Vec<u8>)
    ensures
        final(out)@ == old(out)@ + lit_sep_micros(),
{
    out.push(34);
    out.push(44);
    out.push(34);
    out.push(99);
    out.push(114);
    out.push(101);
    out.push(97);
    out.push(116);
    out.push(101);
    out.push(100);
    out.push(95);
    out.push(97);
    out.push(116);
    out.push(95);
    out.push(109);
    out.push(105);
    out.push(99);
    out.push(114);
    out.push(111);
    out.push(115);
    out.push(34);
    out.push(58);
    assert(out@ =~= old(out)@ + lit_sep_micros());
}

} // verus!
