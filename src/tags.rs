use vstd::prelude::*;

use crate::attribute::{
    attribute_pairs, lemma_name_run, lemma_one_field, lemma_two_fields, pair_of,
    parse_attribute_pairs,
};
use crate::error::{Error, ErrorKind, Result};
use crate::text::{chars_of, span_equals, str_equals};
use crate::types::{
    Decimal, ProtocolVersion, SignedDecimalFloatingPoint, decimal_text, is_canonical,
    lemma_decimal_text_chars, lemma_decimal_text_parses, lemma_parse_decimal_canonical,
    parse_decimal,
};

verus! {

/// The boolean that an enumerated-string `YES` or `NO` writes; `None` for any other
/// text (case matters).
pub open spec fn yes_or_no(t: Seq<char>) -> Option<bool> {
    if t == "YES"@ {
        Some(true)
    } else if t == "NO"@ {
        Some(false)
    } else {
        None
    }
}

/// Parses `YES` as `true` and `NO` as `false`; fails with `InvalidInput` on any
/// other text.
pub fn parse_yes_or_no(s: &str) -> (r: Result<bool>)
    ensures
        match r {
            Ok(b) => yes_or_no(s@) == Some(b),
            Err(e) => yes_or_no(s@) is None && e.spec_kind() == ErrorKind::InvalidInput,
        },
{
    if str_equals(s, "YES") {
        Ok(true)
    } else if str_equals(s, "NO") {
        Ok(false)
    } else {
        Err(Error::invalid_input("expected YES or NO"))
    }
}

/// [4.3.5.1. EXT-X-INDEPENDENT-SEGMENTS](https://tools.ietf.org/html/rfc8216#section-4.3.5.1)
#[derive(Debug, Clone, Copy, PartialEq, Eq, Hash, Structural)]
pub struct ExtXIndependentSegments;

/// The one line that writes an `EXT-X-INDEPENDENT-SEGMENTS` tag.
pub open spec fn independent_segments_text() -> Seq<char> {
    "#EXT-X-INDEPENDENT-SEGMENTS"@
}

/// Whether `line` is an `EXT-X-INDEPENDENT-SEGMENTS` tag: nothing may follow the
/// tag name, not even a colon or a blank.
pub open spec fn is_independent_segments(line: Seq<char>) -> bool {
    line == independent_segments_text()
}

impl ExtXIndependentSegments {
    /// Returns the protocol compatibility version that this tag requires.
    pub fn requires_version(self) -> (r: ProtocolVersion)
        ensures
            r == ProtocolVersion::V1,
    {
        ProtocolVersion::V1
    }

    /// Parses the tag line; fails with `InvalidInput` unless `s` is exactly
    /// `#EXT-X-INDEPENDENT-SEGMENTS`.
    pub fn parse(s: &str) -> (r: Result<ExtXIndependentSegments>)
        ensures
            r is Ok <==> is_independent_segments(s@),
            r matches Err(e) ==> e.spec_kind() == ErrorKind::InvalidInput,
    {
        if str_equals(s, "#EXT-X-INDEPENDENT-SEGMENTS") {
            Ok(ExtXIndependentSegments)
        } else {
            Err(Error::invalid_input("expected exactly #EXT-X-INDEPENDENT-SEGMENTS"))
        }
    }

    /// The tag line.
    pub fn to_string(&self) -> (r: String)
        ensures
            r@ == independent_segments_text(),
    {
        String::from_str("#EXT-X-INDEPENDENT-SEGMENTS")
    }
}

impl core::str::FromStr for ExtXIndependentSegments {
    type Err = Error;

    /// Parses the tag line, as `ExtXIndependentSegments::parse` does.
    fn from_str(s: &str) -> (r: Result<ExtXIndependentSegments>)
        ensures
            r is Ok <==> is_independent_segments(s@),
            r matches Err(e) ==> e.spec_kind() == ErrorKind::InvalidInput,
    {
        ExtXIndependentSegments::parse(s)
    }
}

/// The value of an `EXT-X-START` tag.
pub ghost struct Start {
    pub time_offset: Decimal,
    pub precise: bool,
}

/// What the attributes `ps` of an `EXT-X-START` tag set, read in order: the time
/// offset (`None` until one is given) and the precise flag (false until given);
/// a later attribute overrides an earlier one of the same name, and other names
/// are ignored. `None` where a `TIME-OFFSET` or `PRECISE` value is malformed.
pub open spec fn start_attributes(ps: Seq<(Seq<char>, Seq<char>)>) -> Option<(Option<Decimal>, bool)>
    decreases ps.len(),
{
    if ps.len() == 0 {
        Some((None, false))
    } else {
        match start_attributes(ps.drop_last()) {
            None => None,
            Some(st) => {
                let key = ps.last().0;
                let value = ps.last().1;
                if key == "TIME-OFFSET"@ {
                    match parse_decimal(value) {
                        Some(d) => Some((Some(d), st.1)),
                        None => None,
                    }
                } else if key == "PRECISE"@ {
                    match yes_or_no(value) {
                        Some(b) => Some((st.0, b)),
                        None => None,
                    }
                } else {
                    Some(st)
                }
            },
        }
    }
}

/// The value that the line `line` writes as an `EXT-X-START` tag; `None` where it
/// does not start with `#EXT-X-START:`, its attribute list is malformed, a
/// recognized value is malformed, or `TIME-OFFSET` is missing.
pub open spec fn parse_start(line: Seq<char>) -> Option<Start> {
    let prefix = "#EXT-X-START:"@;
    if line.len() >= prefix.len() && line.take(prefix.len() as int) == prefix {
        match attribute_pairs(line.skip(prefix.len() as int)) {
            Some(ps) => match start_attributes(ps) {
                Some(st) => match st.0 {
                    Some(d) => Some(Start { time_offset: d, precise: st.1 }),
                    None => None,
                },
                None => None,
            },
            None => None,
        }
    } else {
        None
    }
}

/// The canonical line of an `EXT-X-START` tag: the time offset, then
/// `,PRECISE=YES` where precise (`PRECISE=NO` is never written).
pub open spec fn start_text(v: Start) -> Seq<char> {
    "#EXT-X-START:TIME-OFFSET="@ + decimal_text(v.time_offset) + (if v.precise {
        ",PRECISE=YES"@
    } else {
        Seq::empty()
    })
}

proof fn lemma_start_attributes_fail(ps: Seq<(Seq<char>, Seq<char>)>, m: int)
    requires
        0 <= m <= ps.len(),
        start_attributes(ps.take(m)) is None,
    ensures
        start_attributes(ps) is None,
    decreases ps.len(),
{
    if m == ps.len() {
        assert(ps.take(m) =~= ps);
    } else {
        assert(ps.drop_last().take(m) =~= ps.take(m));
        lemma_start_attributes_fail(ps.drop_last(), m);
    }
}

/// The attribute list of a canonical line up to an eventual comma: its one pair.
proof fn lemma_time_offset_field(t: Decimal)
    requires
        is_canonical(t),
    ensures
        ({
            let a = "#EXT-X-START:TIME-OFFSET="@.skip(13) + decimal_text(t);
            &&& a.len() > 12
            &&& forall|i: int| 0 <= i < a.len() ==> #[trigger] a[i] != ',' && a[i] != '"'
            &&& pair_of(a) == Some(("TIME-OFFSET"@, decimal_text(t)))
        }),
{
    reveal_strlit("#EXT-X-START:TIME-OFFSET=");
    reveal_strlit("TIME-OFFSET");
    let d = decimal_text(t);
    let a = "#EXT-X-START:TIME-OFFSET="@.skip(13) + d;
    lemma_decimal_text_chars(t);
    assert(d.len() > 0);
    assert forall|i: int| 0 <= i < a.len() implies #[trigger] a[i] != ',' && a[i] != '"' by {
        if i >= 12 {
            assert(a[i] == d[i - 12]);
        }
    }
    lemma_name_run(a, 11);
    assert(a.take(11) =~= "TIME-OFFSET"@);
    assert(a.skip(12) =~= d);
}

/// The attribute after the comma of a precise line.
proof fn lemma_precise_field()
    ensures
        ({
            let b = ",PRECISE=YES"@.skip(1);
            &&& forall|i: int| 0 <= i < b.len() ==> #[trigger] b[i] != ',' && b[i] != '"'
            &&& pair_of(b) == Some(("PRECISE"@, "YES"@))
        }),
{
    reveal_strlit(",PRECISE=YES");
    reveal_strlit("PRECISE");
    reveal_strlit("YES");
    let b = ",PRECISE=YES"@.skip(1);
    lemma_name_run(b, 7);
    assert(b.take(7) =~= "PRECISE"@);
    assert(b.skip(8) =~= "YES"@);
}

/// The attributes of a canonical line set what the value holds.
proof fn lemma_canonical_attributes(t: Decimal)
    requires
        is_canonical(t),
    ensures
        ({
            let time_pair = ("TIME-OFFSET"@, decimal_text(t));
            &&& start_attributes(seq![time_pair]) == Some((Some(t), false))
            &&& start_attributes(seq![time_pair, ("PRECISE"@, "YES"@)]) == Some((Some(t), true))
        }),
{
    reveal_strlit("PRECISE");
    reveal_strlit("TIME-OFFSET");
    reveal_strlit("YES");
    let time_pair = ("TIME-OFFSET"@, decimal_text(t));
    let ps = seq![time_pair, ("PRECISE"@, "YES"@)];
    lemma_decimal_text_parses(t);
    assert(seq![time_pair].drop_last() =~= Seq::<(Seq<char>, Seq<char>)>::empty());
    assert(start_attributes(Seq::empty()) == Some((None::<Decimal>, false)));
    assert(start_attributes(seq![time_pair]) == Some((Some(t), false)));
    assert(ps.drop_last() =~= seq![time_pair]);
    assert("PRECISE"@.len() != "TIME-OFFSET"@.len());
}

/// Formatting then parsing gives back the value: every `EXT-X-START` value whose
/// time offset is canonical reads back from its line as itself.
pub proof fn law_start_format_then_parse(v: Start)
    requires
        is_canonical(v.time_offset),
    ensures
        parse_start(start_text(v)) == Some(v),
{
    reveal_strlit("#EXT-X-START:TIME-OFFSET=");
    reveal_strlit("#EXT-X-START:");
    reveal_strlit(",PRECISE=YES");
    let head = "#EXT-X-START:TIME-OFFSET="@;
    let d = decimal_text(v.time_offset);
    let tail: Seq<char> = if v.precise { ",PRECISE=YES"@ } else { Seq::empty() };
    let line = start_text(v);
    assert(line =~= head + d + tail);
    assert(line.take(13) =~= "#EXT-X-START:"@);
    let rest = line.skip(13);
    let a = head.skip(13) + d;
    assert(rest =~= a + tail);
    lemma_time_offset_field(v.time_offset);
    lemma_canonical_attributes(v.time_offset);
    if v.precise {
        lemma_precise_field();
        let b = tail.skip(1);
        assert(a.push(',') + b =~= rest);
        lemma_two_fields(a, b);
    } else {
        assert(rest =~= a);
        lemma_one_field(a);
    }
}

proof fn lemma_start_attributes_canonical(ps: Seq<(Seq<char>, Seq<char>)>)
    requires
        start_attributes(ps) matches Some(st) && st.0 is Some,
    ensures
        is_canonical(start_attributes(ps)->Some_0.0->Some_0),
    decreases ps.len(),
{
    let key = ps.last().0;
    let value = ps.last().1;
    if key == "TIME-OFFSET"@ {
        lemma_parse_decimal_canonical(value);
    } else {
        lemma_start_attributes_canonical(ps.drop_last());
    }
}

/// Parsing then formatting gives the canonical line: what any accepted line reads
/// as has a canonical time offset, its line reads back as the same value, and a
/// line that is already canonical comes back unchanged.
pub proof fn law_start_parse_then_format(line: Seq<char>)
    requires
        parse_start(line) is Some,
    ensures
        is_canonical(parse_start(line)->Some_0.time_offset),
        parse_start(start_text(parse_start(line)->Some_0)) == parse_start(line),
        forall|w: Start|
            is_canonical(w.time_offset) && #[trigger] start_text(w) == line ==> start_text(
                parse_start(line)->Some_0,
            ) == line,
{
    let prefix = "#EXT-X-START:"@;
    let ps = attribute_pairs(line.skip(prefix.len() as int))->Some_0;
    lemma_start_attributes_canonical(ps);
    law_start_format_then_parse(parse_start(line)->Some_0);
    assert forall|w: Start|
        is_canonical(w.time_offset) && #[trigger] start_text(w) == line implies start_text(
            parse_start(line)->Some_0,
        ) == line by {
        law_start_format_then_parse(w);
    }
}

/// The one `EXT-X-INDEPENDENT-SEGMENTS` line is accepted, and every accepted line
/// is what formatting the tag gives.
pub proof fn law_independent_segments_round_trip(line: Seq<char>)
    ensures
        is_independent_segments(independent_segments_text()),
        is_independent_segments(line) ==> independent_segments_text() == line,
{
}

/// [4.3.5.2. EXT-X-START](https://tools.ietf.org/html/rfc8216#section-4.3.5.2)
#[derive(Debug, Clone)]
pub struct ExtXStart {
    time_offset: SignedDecimalFloatingPoint,
    precise: bool,
}

impl View for ExtXStart {
    type V = Start;

    closed spec fn view(&self) -> Start {
        Start { time_offset: self.time_offset@, precise: self.precise }
    }
}

impl ExtXStart {
    /// Makes a new `ExtXStart` tag, not precise.
    pub fn new(time_offset: SignedDecimalFloatingPoint) -> (r: ExtXStart)
        ensures
            r@ == (Start { time_offset: time_offset@, precise: false }),
    {
        ExtXStart { time_offset, precise: false }
    }

    /// Makes a new `ExtXStart` tag with the given `precise` flag.
    pub fn with_precise(time_offset: SignedDecimalFloatingPoint, precise: bool) -> (r: ExtXStart)
        ensures
            r@ == (Start { time_offset: time_offset@, precise }),
    {
        ExtXStart { time_offset, precise }
    }

    /// Returns the time offset of the media segments in the playlist.
    pub fn time_offset(&self) -> (r: SignedDecimalFloatingPoint)
        ensures
            r@ == self@.time_offset,
    {
        self.time_offset.duplicate()
    }

    /// Returns whether clients should not render media stream whose presentation
    /// times are prior to the specified time offset.
    pub fn precise(&self) -> (r: bool)
        ensures
            r == self@.precise,
    {
        self.precise
    }

    /// Returns the protocol compatibility version that this tag requires.
    pub fn requires_version(&self) -> (r: ProtocolVersion)
        ensures
            r == ProtocolVersion::V1,
    {
        ProtocolVersion::V1
    }

    /// The canonical tag line, which parses back as this tag.
    pub fn to_string(&self) -> (r: String)
        ensures
            r@ == start_text(self@),
            parse_start(r@) == Some(self@),
    {
        proof {
            use_type_invariant(&self.time_offset);
            law_start_format_then_parse(self@);
        }
        let mut r = String::from_str("#EXT-X-START:TIME-OFFSET=");
        let offset = self.time_offset.to_string();
        r.append(offset.as_str());
        if self.precise {
            r.append(",PRECISE=YES");
        }
        r
    }

    /// Parses the tag line `#EXT-X-START:<attribute-list>`; fails with
    /// `InvalidInput` exactly where `parse_start` gives `None`.
    pub fn parse(s: &str) -> (r: Result<ExtXStart>)
        ensures
            match r {
                Ok(t) => parse_start(s@) == Some(t@) && is_canonical(t@.time_offset),
                Err(e) => parse_start(s@) is None && e.spec_kind() == ErrorKind::InvalidInput,
            },
    {
        let cs = chars_of(s);
        let n = cs.len();
        let plen = "#EXT-X-START:".unicode_len();
        if n < plen || !span_equals(&cs, 0, plen, "#EXT-X-START:") {
            proof {
                if n >= plen {
                    assert(cs@.subrange(0, plen as int) =~= s@.take(plen as int));
                }
            }
            return Err(Error::invalid_input("expected the prefix #EXT-X-START:"));
        }
        assert(cs@.subrange(0, plen as int) =~= s@.take(plen as int));
        let rest = s.substring_char(plen, n);
        assert(rest@ =~= s@.skip(plen as int));
        let pairs = match parse_attribute_pairs(rest) {
            Ok(v) => v,
            Err(e) => {
                return Err(e);
            },
        };
        let ghost ps = attribute_pairs(rest@)->Some_0;
        let mut time_offset: Option<SignedDecimalFloatingPoint> = None;
        let mut precise = false;
        for m in 0..pairs.len()
            invariant
                plen == "#EXT-X-START:"@.len(),
                s@.len() >= plen,
                s@.take(plen as int) == "#EXT-X-START:"@,
                attribute_pairs(s@.skip(plen as int)) == Some(ps),
                pairs@.len() == ps.len(),
                forall|j: int|
                    0 <= j < pairs@.len() ==> (#[trigger] pairs@[j]).0@ == ps[j].0 && pairs@[j].1@
                        == ps[j].1,
                start_attributes(ps.take(m as int)) matches Some(st) && st.1 == precise && match time_offset {
                    Some(d) => st.0 == Some(d@) && is_canonical(d@),
                    None => st.0 is None,
                },
        {
            assert(ps.take(m + 1).drop_last() =~= ps.take(m as int));
            assert(ps.take(m + 1).last() == ps[m as int]);
            let key = pairs[m].0.as_str();
            let value = pairs[m].1.as_str();
            if str_equals(key, "TIME-OFFSET") {
                match SignedDecimalFloatingPoint::parse(value) {
                    Ok(d) => {
                        time_offset = Some(d);
                    },
                    Err(e) => {
                        proof {
                            assert(start_attributes(ps.take(m + 1)) is None);
                            lemma_start_attributes_fail(ps, m + 1);
                        }
                        return Err(e);
                    },
                }
            } else if str_equals(key, "PRECISE") {
                match parse_yes_or_no(value) {
                    Ok(b) => {
                        precise = b;
                    },
                    Err(e) => {
                        proof {
                            assert(start_attributes(ps.take(m + 1)) is None);
                            lemma_start_attributes_fail(ps, m + 1);
                        }
                        return Err(e);
                    },
                }
            }
        }
        assert(ps.take(ps.len() as int) =~= ps);
        match time_offset {
            Some(d) => Ok(ExtXStart { time_offset: d, precise }),
            None => Err(Error::invalid_input("missing TIME-OFFSET attribute")),
        }
    }
}

impl PartialEq for ExtXStart {
    fn eq(&self, o: &ExtXStart) -> (r: bool) {
        self.time_offset == o.time_offset && self.precise == o.precise
    }
}

impl vstd::std_specs::cmp::PartialEqSpecImpl for ExtXStart {
    open spec fn obeys_eq_spec() -> bool {
        true
    }

    open spec fn eq_spec(&self, o: &ExtXStart) -> bool {
        self@ == o@
    }
}

impl core::str::FromStr for ExtXStart {
    type Err = Error;

    /// Parses the tag line, as `ExtXStart::parse` does.
    fn from_str(s: &str) -> (r: Result<ExtXStart>)
        ensures
            match r {
                Ok(t) => parse_start(s@) == Some(t@) && is_canonical(t@.time_offset),
                Err(e) => parse_start(s@) is None && e.spec_kind() == ErrorKind::InvalidInput,
            },
    {
        ExtXStart::parse(s)
    }
}

} // verus!
