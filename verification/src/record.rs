//! Zones from textual records, and records from zones.
//!
//! A record is a line of fields, read as bytes. Fields are separated by
//! whitespace: any run of spaces, tabs, line feeds, form feeds and carriage
//! returns; whitespace before the first field and after the last is passed
//! over. The first six fields are `x y type_1 type_2 type_3 type_4`: two
//! signed and four unsigned decimal integers. Fields after the sixth are
//! ignored.

use vstd::prelude::*;
use vstd::string::StringSliceAdditionalSpecFns;
use crate::decimal::{
    digits_of, is_digit, lemma_digits_of_value, lemma_signed_text_value, parse_i32,
    parse_i32_field, parse_u32, parse_u32_field, push_digits, push_signed, signed_text,
};
use crate::error::ZoneError;
use crate::zone::{Restriction, Zone};

verus! {

pub const SPACE: u8 = 32;

/// Whether a byte is whitespace: a space, a tab, a line feed, a form feed or
/// a carriage return.
pub open spec fn is_space(b: u8) -> bool {
    b == SPACE || b == 9 || b == 10 || b == 12 || b == 13
}

/// The first place at or after `start` that holds no whitespace, or the end
/// of the record.
pub open spec fn skip_spaces(s: Seq<u8>, start: int) -> int
    decreases s.len() - start,
{
    if start >= s.len() {
        s.len() as int
    } else if !is_space(s[start]) {
        start
    } else {
        skip_spaces(s, start + 1)
    }
}

/// Where the field that starts at `start` ends: at the first whitespace at or
/// after `start`, or at the end of the record.
pub open spec fn field_end(s: Seq<u8>, start: int) -> int
    decreases s.len() - start,
{
    if start >= s.len() {
        s.len() as int
    } else if is_space(s[start]) {
        start
    } else {
        field_end(s, start + 1)
    }
}

/// Where field number `k` starts: behind the whitespace that follows the
/// field before it. The end of the record says that there is no such field.
pub open spec fn field_start(s: Seq<u8>, k: nat) -> int
    decreases k,
{
    if k == 0 {
        skip_spaces(s, 0)
    } else {
        skip_spaces(s, field_end(s, field_start(s, (k - 1) as nat)))
    }
}

pub open spec fn has_field(s: Seq<u8>, k: nat) -> bool {
    field_start(s, k) < s.len()
}

/// The bytes of field number `k`; no bytes where the record has no such
/// field.
pub open spec fn field(s: Seq<u8>, k: nat) -> Seq<u8> {
    s.subrange(field_start(s, k), field_end(s, field_start(s, k)))
}

/// A record is well formed when its first six fields exist and are numbers.
/// A field that does not exist has no bytes, and so is no number.
pub open spec fn well_formed(s: Seq<u8>) -> bool {
    &&& parse_i32(field(s, 0)) is Some
    &&& parse_i32(field(s, 1)) is Some
    &&& parse_u32(field(s, 2)) is Some
    &&& parse_u32(field(s, 3)) is Some
    &&& parse_u32(field(s, 4)) is Some
    &&& parse_u32(field(s, 5)) is Some
}

/// The zone that a well-formed record describes. It is not an end zone.
pub open spec fn zone_of_record(s: Seq<u8>) -> Zone
    recommends
        well_formed(s),
{
    Zone {
        x: parse_i32(field(s, 0))->0,
        y: parse_i32(field(s, 1))->0,
        restriction: Restriction {
            type_1: parse_u32(field(s, 2))->0,
            type_2: parse_u32(field(s, 3))->0,
            type_3: parse_u32(field(s, 4))->0,
            type_4: parse_u32(field(s, 5))->0,
        },
        is_end_zone: false,
    }
}

pub open spec fn all_well_formed(records: Seq<Seq<u8>>) -> bool {
    forall|i: int| 0 <= i < records.len() ==> well_formed(#[trigger] records[i])
}

/// The zones that a sequence of well-formed records describes: one zone for
/// each record, in order, the last one marked as the end zone.
pub open spec fn zones_of_records(records: Seq<Seq<u8>>) -> Seq<Zone>
    recommends
        all_well_formed(records),
{
    Seq::new(
        records.len(),
        |i: int|
            Zone { is_end_zone: i == records.len() - 1, ..zone_of_record(records[i]) },
    )
}

/// The bytes of each line.
pub open spec fn records_of(lines: Seq<&str>) -> Seq<Seq<u8>> {
    Seq::new(lines.len(), |i: int| lines[i].spec_bytes())
}

/// Whether a byte is whitespace.
fn is_space_byte(b: u8) -> (r: bool)
    ensures
        r == is_space(b),
{
    b == SPACE || b == 9 || b == 10 || b == 12 || b == 13
}

/// Passes over the whitespace at `start`.
fn pass_spaces(bytes: &[u8], start: usize) -> (next: usize)
    requires
        start <= bytes@.len(),
    ensures
        next == skip_spaces(bytes@, start as int),
        start <= next <= bytes@.len(),
{
    let mut i: usize = start;
    while i < bytes.len() && is_space_byte(bytes[i])
        invariant
            start <= i <= bytes@.len(),
            skip_spaces(bytes@, i as int) == skip_spaces(bytes@, start as int),
        decreases bytes@.len() - i,
    {
        i = i + 1;
    }
    i
}

/// Finds the end of the field that starts at `start`.
fn scan_field(bytes: &[u8], start: usize) -> (end: usize)
    requires
        start <= bytes@.len(),
    ensures
        end == field_end(bytes@, start as int),
        start <= end <= bytes@.len(),
{
    let mut i: usize = start;
    while i < bytes.len() && !is_space_byte(bytes[i])
        invariant
            start <= i <= bytes@.len(),
            field_end(bytes@, i as int) == field_end(bytes@, start as int),
        decreases bytes@.len() - i,
    {
        i = i + 1;
    }
    i
}

/// Reads the signed field that starts behind the whitespace at `from`, and
/// says where it ends.
fn read_signed(bytes: &[u8], from: usize) -> (r: Option<(i32, usize)>)
    requires
        from <= bytes@.len(),
    ensures
        ({
            let start = skip_spaces(bytes@, from as int);
            let end = field_end(bytes@, start);
            match r {
                Some((v, at)) => at == end && at <= bytes@.len() && parse_i32(
                    bytes@.subrange(start, end),
                ) == Some(v),
                None => parse_i32(bytes@.subrange(start, end)) is None,
            }
        }),
{
    let start: usize = pass_spaces(bytes, from);
    let end: usize = scan_field(bytes, start);
    match parse_i32_field(bytes, start, end) {
        Some(v) => Some((v, end)),
        None => None,
    }
}

/// Reads the unsigned field that starts behind the whitespace at `from`, and
/// says where it ends.
fn read_unsigned(bytes: &[u8], from: usize) -> (r: Option<(u32, usize)>)
    requires
        from <= bytes@.len(),
    ensures
        ({
            let start = skip_spaces(bytes@, from as int);
            let end = field_end(bytes@, start);
            match r {
                Some((v, at)) => at == end && at <= bytes@.len() && parse_u32(
                    bytes@.subrange(start, end),
                ) == Some(v),
                None => parse_u32(bytes@.subrange(start, end)) is None,
            }
        }),
{
    let start: usize = pass_spaces(bytes, from);
    let end: usize = scan_field(bytes, start);
    match parse_u32_field(bytes, start, end) {
        Some(v) => Some((v, end)),
        None => None,
    }
}

/// Reads one record.
///
/// Succeeds exactly on the well-formed records, with the zone described;
/// every other record is a `ParseError`.
pub fn parse_record(bytes: &[u8]) -> (r: Result<Zone, ZoneError>)
    ensures
        well_formed(bytes@) ==> r == Ok::<Zone, ZoneError>(zone_of_record(bytes@)),
        !well_formed(bytes@) ==> r == Err::<Zone, ZoneError>(ZoneError::ParseError),
{
    proof {
        reveal_with_fuel(field_start, 6);
    }
    let (x, end) = match read_signed(bytes, 0) {
        Some(found) => found,
        None => {
            return Err(ZoneError::ParseError);
        },
    };
    let (y, end) = match read_signed(bytes, end) {
        Some(found) => found,
        None => {
            return Err(ZoneError::ParseError);
        },
    };
    let (type_1, end) = match read_unsigned(bytes, end) {
        Some(found) => found,
        None => {
            return Err(ZoneError::ParseError);
        },
    };
    let (type_2, end) = match read_unsigned(bytes, end) {
        Some(found) => found,
        None => {
            return Err(ZoneError::ParseError);
        },
    };
    let (type_3, end) = match read_unsigned(bytes, end) {
        Some(found) => found,
        None => {
            return Err(ZoneError::ParseError);
        },
    };
    let (type_4, _) = match read_unsigned(bytes, end) {
        Some(found) => found,
        None => {
            return Err(ZoneError::ParseError);
        },
    };
    Ok(Zone { x, y, restriction: Restriction { type_1, type_2, type_3, type_4 }, is_end_zone: false })
}

/// Builds the zones that `lines` describe, one for each line and in order,
/// and marks the last of them as the end zone. `size` is the number of zones
/// expected; it only sizes the first allocation.
///
/// Fails with a `ParseError`, and builds nothing, as soon as one line is not
/// a well-formed record. No lines give no zones.
pub fn construct_zones_for_test(size: usize, lines: &[&str]) -> (r: Result<Vec<Zone>, ZoneError>)
    ensures
        all_well_formed(records_of(lines@)) ==> r is Ok && r->Ok_0@ == zones_of_records(
            records_of(lines@),
        ),
        !all_well_formed(records_of(lines@)) ==> r == Err::<Vec<Zone>, ZoneError>(
            ZoneError::ParseError,
        ),
{
    let ghost records = records_of(lines@);
    let n: usize = lines.len();
    let mut zones: Vec<Zone> = Vec::with_capacity(if size < n { size } else { n });
    let mut i: usize = 0;
    while i < n
        invariant
            i <= n == lines@.len(),
            records == records_of(lines@),
            zones@.len() == i,
            forall|j: int| 0 <= j < i ==> well_formed(#[trigger] records[j]),
            forall|j: int|
                0 <= j < i ==> #[trigger] zones@[j] == (Zone {
                    is_end_zone: j == n - 1,
                    ..zone_of_record(records[j])
                }),
        decreases n - i,
    {
        let line: &str = lines[i];
        assert(records[i as int] == line.spec_bytes());
        match parse_record(line.as_bytes()) {
            Ok(zone) => {
                zones.push(Zone { is_end_zone: i == n - 1, ..zone });
            },
            Err(e) => {
                return Err(e);
            },
        }
        i = i + 1;
    }
    Ok(zones)
}

/// Whether a run of bytes can be written as a field: it has at least one
/// byte, and none of its bytes is whitespace.
pub open spec fn is_field(s: Seq<u8>) -> bool {
    &&& s.len() > 0
    &&& forall|i: int| 0 <= i < s.len() ==> !is_space(#[trigger] s[i])
}

/// The record whose fields are `fields`: the fields with one space between
/// each two of them.
pub open spec fn joined(fields: Seq<Seq<u8>>) -> Seq<u8>
    decreases fields.len(),
{
    if fields.len() == 0 {
        Seq::empty()
    } else if fields.len() == 1 {
        fields[0]
    } else {
        fields[0] + seq![SPACE] + joined(fields.skip(1))
    }
}

/// The six fields written for a zone.
pub open spec fn fields_of_zone(z: Zone) -> Seq<Seq<u8>> {
    seq![
        signed_text(z.x as int),
        signed_text(z.y as int),
        digits_of(z.restriction.type_1 as nat),
        digits_of(z.restriction.type_2 as nat),
        digits_of(z.restriction.type_3 as nat),
        digits_of(z.restriction.type_4 as nat),
    ]
}

/// The record written for a zone: `x y type_1 type_2 type_3 type_4`, each
/// number without a `+` and without leading zeros. Whether the zone is an end
/// zone is not written.
pub open spec fn record_of_zone(z: Zone) -> Seq<u8> {
    joined(fields_of_zone(z))
}

/// The records written for a sequence of zones, one for each zone.
pub open spec fn records_of_zones(zones: Seq<Zone>) -> Seq<Seq<u8>> {
    Seq::new(zones.len(), |i: int| record_of_zone(zones[i]))
}

/// A field that is followed by whitespace or by nothing ends where it ends.
proof fn lemma_field_end_of_first(a: Seq<u8>, rest: Seq<u8>, p: int)
    requires
        is_field(a),
        rest.len() == 0 || is_space(rest[0]),
        0 <= p <= a.len(),
    ensures
        field_end(a + rest, p) == a.len(),
    decreases a.len() - p,
{
    if p < a.len() {
        lemma_field_end_of_first(a, rest, p + 1);
    }
}

/// Bytes in front of a record move the ends of its fields, and nothing else.
proof fn lemma_field_end_shift(front: Seq<u8>, rest: Seq<u8>, p: int)
    requires
        0 <= p,
    ensures
        field_end(front + rest, front.len() + p) == front.len() + field_end(rest, p),
    decreases rest.len() - p,
{
    if p < rest.len() && !is_space(rest[p]) {
        lemma_field_end_shift(front, rest, p + 1);
    }
}

/// Bytes in front of a record move the starts of its fields, and nothing
/// else.
proof fn lemma_skip_spaces_shift(front: Seq<u8>, rest: Seq<u8>, p: int)
    requires
        0 <= p,
    ensures
        skip_spaces(front + rest, front.len() + p) == front.len() + skip_spaces(rest, p),
    decreases rest.len() - p,
{
    if p < rest.len() && is_space(rest[p]) {
        lemma_skip_spaces_shift(front, rest, p + 1);
    }
}

/// A field starts and ends within the record, and does not end before it
/// starts.
proof fn lemma_field_bounds(s: Seq<u8>, k: nat)
    ensures
        0 <= field_start(s, k) <= field_end(s, field_start(s, k)) <= s.len(),
    decreases k,
{
    if k == 0 {
        lemma_scan_bounds(s, 0);
    } else {
        lemma_field_bounds(s, (k - 1) as nat);
        lemma_scan_bounds(s, field_end(s, field_start(s, (k - 1) as nat)));
    }
    lemma_scan_bounds(s, field_start(s, k));
}

/// Passing over whitespace, and over a field, goes forward and stays within
/// the record.
proof fn lemma_scan_bounds(s: Seq<u8>, start: int)
    requires
        0 <= start <= s.len(),
    ensures
        start <= skip_spaces(s, start) <= s.len(),
        start <= field_end(s, start) <= s.len(),
    decreases s.len() - start,
{
    if start < s.len() {
        lemma_scan_bounds(s, start + 1);
    }
}

/// Behind a first field and its space, field `k + 1` starts where field `k`
/// of the rest starts.
proof fn lemma_field_start_shift(a: Seq<u8>, rest: Seq<u8>, k: nat)
    requires
        is_field(a),
    ensures
        field_start(a + seq![SPACE] + rest, k + 1) == a.len() + 1 + field_start(rest, k),
    decreases k,
{
    let front = a + seq![SPACE];
    let s = front + rest;
    if k == 0 {
        reveal_with_fuel(field_start, 2);
        assert(s =~= a + (seq![SPACE] + rest));
        lemma_field_end_of_first(a, seq![SPACE] + rest, 0);
        lemma_skip_spaces_shift(front, rest, 0);
    } else {
        lemma_field_start_shift(a, rest, (k - 1) as nat);
        lemma_field_bounds(rest, (k - 1) as nat);
        let q = field_start(rest, (k - 1) as nat);
        lemma_field_end_shift(front, rest, q);
        lemma_skip_spaces_shift(front, rest, field_end(rest, q));
    }
}

/// Splitting a joined record gives its fields back.
pub proof fn lemma_fields_of_joined(fields: Seq<Seq<u8>>, k: nat)
    requires
        k < fields.len(),
        forall|i: int| 0 <= i < fields.len() ==> is_field(#[trigger] fields[i]),
    ensures
        has_field(joined(fields), k),
        field(joined(fields), k) == fields[k as int],
    decreases fields.len(),
{
    let s = joined(fields);
    let a = fields[0];
    if fields.len() == 1 {
        lemma_field_end_of_first(a, Seq::<u8>::empty(), 0);
    } else {
        let tail = fields.skip(1);
        let rest = joined(tail);
        assert(s =~= a + (seq![SPACE] + rest));
        if k == 0 {
            lemma_field_end_of_first(a, seq![SPACE] + rest, 0);
        } else {
            let j = (k - 1) as nat;
            assert forall|i: int| 0 <= i < tail.len() implies is_field(#[trigger] tail[i]) by {
                assert(tail[i] == fields[i + 1]);
            }
            lemma_fields_of_joined(tail, j);
            lemma_field_start_shift(a, rest, j);
            lemma_field_bounds(rest, j);
            let q = field_start(rest, j);
            lemma_field_end_shift(a + seq![SPACE], rest, q);
        }
    }
}

/// The digits written for a count denote that count.
proof fn lemma_unsigned_text_value(n: u32)
    ensures
        parse_u32(digits_of(n as nat)) == Some(n),
{
    lemma_signed_text_value(n as int);
}

/// What is written for a number can stand as a field.
proof fn lemma_signed_text_is_field(v: int)
    ensures
        is_field(signed_text(v)),
{
    let text = signed_text(v);
    if v < 0 {
        lemma_digits_of_value((-v) as nat);
        assert forall|i: int| 0 <= i < text.len() implies !is_space(#[trigger] text[i]) by {
            if i > 0 {
                assert(is_digit(digits_of((-v) as nat)[i - 1]));
            }
        }
    } else {
        lemma_digits_of_value(v as nat);
        assert forall|i: int| 0 <= i < text.len() implies !is_space(#[trigger] text[i]) by {
            assert(is_digit(text[i]));
        }
    }
}

/// Reading the record written for a zone gives back the zone's numbers: its
/// position and its restriction counts.
pub proof fn lemma_record_round_trip(z: Zone)
    ensures
        well_formed(record_of_zone(z)),
        zone_of_record(record_of_zone(z)) == (Zone { is_end_zone: false, ..z }),
{
    let fields = fields_of_zone(z);
    lemma_signed_text_is_field(z.x as int);
    lemma_signed_text_is_field(z.y as int);
    lemma_signed_text_is_field(z.restriction.type_1 as int);
    lemma_signed_text_is_field(z.restriction.type_2 as int);
    lemma_signed_text_is_field(z.restriction.type_3 as int);
    lemma_signed_text_is_field(z.restriction.type_4 as int);
    lemma_fields_of_joined(fields, 0);
    lemma_fields_of_joined(fields, 1);
    lemma_fields_of_joined(fields, 2);
    lemma_fields_of_joined(fields, 3);
    lemma_fields_of_joined(fields, 4);
    lemma_fields_of_joined(fields, 5);
    lemma_signed_text_value(z.x as int);
    lemma_signed_text_value(z.y as int);
    lemma_unsigned_text_value(z.restriction.type_1);
    lemma_unsigned_text_value(z.restriction.type_2);
    lemma_unsigned_text_value(z.restriction.type_3);
    lemma_unsigned_text_value(z.restriction.type_4);
}

/// Reading the records written for zones that were read from records gives
/// the same zones again: every number survives being written and read.
pub proof fn lemma_rewritten_records(records: Seq<Seq<u8>>)
    requires
        all_well_formed(records),
    ensures
        all_well_formed(records_of_zones(zones_of_records(records))),
        zones_of_records(records_of_zones(zones_of_records(records))) == zones_of_records(records),
{
    let zones = zones_of_records(records);
    let rewritten = records_of_zones(zones);
    assert forall|i: int| 0 <= i < rewritten.len() implies well_formed(#[trigger] rewritten[i])
        && zone_of_record(rewritten[i]) == zone_of_record(records[i]) by {
        lemma_record_round_trip(zones[i]);
    }
}

impl Zone {
    /// Writes the zone as a record.
    pub fn to_record(&self) -> (r: Vec<u8>)
        ensures
            r@ == record_of_zone(*self),
    {
        let mut r: Vec<u8> = Vec::new();
        push_signed(self.x, &mut r);
        r.push(SPACE);
        push_signed(self.y, &mut r);
        r.push(SPACE);
        push_digits(self.restriction.type_1, &mut r);
        r.push(SPACE);
        push_digits(self.restriction.type_2, &mut r);
        r.push(SPACE);
        push_digits(self.restriction.type_3, &mut r);
        r.push(SPACE);
        push_digits(self.restriction.type_4, &mut r);
        proof {
            reveal_with_fuel(joined, 6);
        }
        r
    }
}

} // verus!
