//! The drawing header: the file version and whether handles are written.
use vstd::prelude::*;
use vstd::string::StringExecFns;

use crate::reading::read_step;
use crate::reading::bad_pair;
use crate::reading::same_error;
use crate::reading::lemma_read_step_chain;
use crate::reading::suffix_of;
use crate::reading::lemma_suffix_next;
use crate::reading::lemma_suffix_refl;
use crate::stream::CodePairStream;
use crate::value::is_marker;
use crate::value::is_text;
use crate::value::CodePair;
use crate::value::CodePairValue;
use crate::value::DxfError;

verus! {

/// The versions of the format, oldest first.
#[derive(Clone, Copy, Debug, PartialEq, Eq, Structural)]
pub enum AcadVersion {
    R12,
    R13,
    R14,
    R2000,
    R2004,
    R2007,
    R2010,
    R2013,
    R2018,
}

/// The place of a version in release order.
pub open spec fn version_rank(v: AcadVersion) -> int {
    match v {
        AcadVersion::R12 => 0,
        AcadVersion::R13 => 1,
        AcadVersion::R14 => 2,
        AcadVersion::R2000 => 3,
        AcadVersion::R2004 => 4,
        AcadVersion::R2007 => 5,
        AcadVersion::R2010 => 6,
        AcadVersion::R2013 => 7,
        AcadVersion::R2018 => 8,
    }
}

/// The text that names a version in the header.
pub open spec fn version_text(v: AcadVersion) -> Seq<char> {
    match v {
        AcadVersion::R12 => "AC1009"@,
        AcadVersion::R13 => "AC1012"@,
        AcadVersion::R14 => "AC1014"@,
        AcadVersion::R2000 => "AC1015"@,
        AcadVersion::R2004 => "AC1018"@,
        AcadVersion::R2007 => "AC1021"@,
        AcadVersion::R2010 => "AC1024"@,
        AcadVersion::R2013 => "AC1027"@,
        AcadVersion::R2018 => "AC1032"@,
    }
}

impl AcadVersion {
    /// The place of this version in release order.
    pub fn rank(&self) -> (r: u8)
        ensures
            r as int == version_rank(*self),
    {
        match self {
            AcadVersion::R12 => 0,
            AcadVersion::R13 => 1,
            AcadVersion::R14 => 2,
            AcadVersion::R2000 => 3,
            AcadVersion::R2004 => 4,
            AcadVersion::R2007 => 5,
            AcadVersion::R2010 => 6,
            AcadVersion::R2013 => 7,
            AcadVersion::R2018 => 8,
        }
    }

    /// Whether this version is `other` or later.
    pub fn at_least(&self, other: AcadVersion) -> (r: bool)
        ensures
            r == (version_rank(*self) >= version_rank(other)),
    {
        self.rank() >= other.rank()
    }

    /// The text that names this version in the header.
    pub fn text(&self) -> (r: &'static str)
        ensures
            r@ == version_text(*self),
    {
        proof {
            reveal_strlit("AC1009");
            reveal_strlit("AC1012");
            reveal_strlit("AC1014");
            reveal_strlit("AC1015");
            reveal_strlit("AC1018");
            reveal_strlit("AC1021");
            reveal_strlit("AC1024");
            reveal_strlit("AC1027");
            reveal_strlit("AC1032");
        }
        match self {
            AcadVersion::R12 => "AC1009",
            AcadVersion::R13 => "AC1012",
            AcadVersion::R14 => "AC1014",
            AcadVersion::R2000 => "AC1015",
            AcadVersion::R2004 => "AC1018",
            AcadVersion::R2007 => "AC1021",
            AcadVersion::R2010 => "AC1024",
            AcadVersion::R2013 => "AC1027",
            AcadVersion::R2018 => "AC1032",
        }
    }

    /// The version that a header text names, if any.
    pub fn from_text(v: &CodePairValue) -> (r: Option<AcadVersion>)
        ensures
            r == version_named(*v),
    {
        if v.is_text("AC1009") {
            Some(AcadVersion::R12)
        } else if v.is_text("AC1012") {
            Some(AcadVersion::R13)
        } else if v.is_text("AC1014") {
            Some(AcadVersion::R14)
        } else if v.is_text("AC1015") {
            Some(AcadVersion::R2000)
        } else if v.is_text("AC1018") {
            Some(AcadVersion::R2004)
        } else if v.is_text("AC1021") {
            Some(AcadVersion::R2007)
        } else if v.is_text("AC1024") {
            Some(AcadVersion::R2010)
        } else if v.is_text("AC1027") {
            Some(AcadVersion::R2013)
        } else if v.is_text("AC1032") {
            Some(AcadVersion::R2018)
        } else {
            None
        }
    }
}

/// The version that a header value names, if any.
pub open spec fn version_named(v: CodePairValue) -> Option<AcadVersion> {
    if is_text(v, "AC1009"@) {
        Some(AcadVersion::R12)
    } else if is_text(v, "AC1012"@) {
        Some(AcadVersion::R13)
    } else if is_text(v, "AC1014"@) {
        Some(AcadVersion::R14)
    } else if is_text(v, "AC1015"@) {
        Some(AcadVersion::R2000)
    } else if is_text(v, "AC1018"@) {
        Some(AcadVersion::R2004)
    } else if is_text(v, "AC1021"@) {
        Some(AcadVersion::R2007)
    } else if is_text(v, "AC1024"@) {
        Some(AcadVersion::R2010)
    } else if is_text(v, "AC1027"@) {
        Some(AcadVersion::R2013)
    } else if is_text(v, "AC1032"@) {
        Some(AcadVersion::R2018)
    } else {
        None
    }
}

/// What reading the header pairs `ps` gives, starting from `version` and
/// `handles`, with the pairs left after it. Up to `0/ENDSEC` (left in place),
/// `9/$ACADVER` must be followed by a `1` string pair, whose known version
/// name sets the version; `9/$HANDLING` must be followed by a `70` short pair,
/// which sets the handle setting; other pairs are passed over. The input may
/// not end first.
pub open spec fn header_read(ps: Seq<CodePair>, version: AcadVersion, handles: bool) -> (Result<(AcadVersion, bool), DxfError>, Seq<CodePair>)
    decreases ps.len(),
{
    if ps.len() == 0 {
        (Err(DxfError::UnexpectedEndOfInput), ps)
    } else if is_marker(ps[0], "ENDSEC"@) {
        (Ok((version, handles)), ps)
    } else if ps[0].code == 9 && is_text(ps[0].value, "$ACADVER"@) {
        if ps.len() == 1 {
            (Err(DxfError::UnexpectedEndOfInput), ps.skip(1))
        } else if ps[1].code == 1 && ps[1].value is Str {
            let v = match version_named(ps[1].value) {
                Some(named) => named,
                None => version,
            };
            header_read(ps.skip(2), v, handles)
        } else {
            (Err(bad_pair(ps[1])), ps.skip(2))
        }
    } else if ps[0].code == 9 && is_text(ps[0].value, "$HANDLING"@) {
        if ps.len() == 1 {
            (Err(DxfError::UnexpectedEndOfInput), ps.skip(1))
        } else if ps[1].code == 70 && ps[1].value is Short {
            header_read(ps.skip(2), version, ps[1].value->Short_0 != 0)
        } else {
            (Err(bad_pair(ps[1])), ps.skip(2))
        }
    } else {
        header_read(ps.skip(1), version, handles)
    }
}

/// `r` is the outcome `spec` of reading a header.
pub open spec fn header_agrees(r: Result<Header, DxfError>, spec: Result<(AcadVersion, bool), DxfError>) -> bool {
    match spec {
        Ok((v, h)) => r matches Ok(hd) && hd.version == v && hd.handles_enabled == h,
        Err(e) => r matches Err(e2) && same_error(e2, e),
    }
}

/// The header of a drawing.
#[derive(Clone, Debug, PartialEq)]
pub struct Header {
    pub version: AcadVersion,
    pub handles_enabled: bool,
}

impl Header {
    /// The header of a new drawing: the newest version, with handles.
    pub fn new() -> (r: Header)
        ensures
            r.version == AcadVersion::R2018,
            r.handles_enabled,
    {
        Header { version: AcadVersion::R2018, handles_enabled: true }
    }

    /// Reads the body of a header section, up to the `0/ENDSEC` that closes
    /// it, which is left in the stream. `9/$ACADVER` sets the version from the
    /// `1` pair after it (an unknown name keeps the default); `9/$HANDLING`
    /// sets whether handles are written from the `70` pair after it; other
    /// pairs are passed over.
    pub fn read(s: &mut CodePairStream) -> (r: Result<Header, DxfError>)
        ensures
            read_step(old(s)@, final(s)@, r),
            header_agrees(r, header_read(old(s)@, AcadVersion::R2018, true).0),
            final(s)@ == header_read(old(s)@, AcadVersion::R2018, true).1,
    {
        let ghost start = s@;
        let mut header = Header::new();
        proof {
            lemma_suffix_refl(start);
        }
        loop
            invariant
                start == old(s)@,
                suffix_of(start, s@),
                header_read(start, AcadVersion::R2018, true) == header_read(
                    s@,
                    header.version,
                    header.handles_enabled,
                ),
            decreases s@.len(),
        {
            let ghost before = s@;
            let pair = match s.next() {
                Some(p) => p,
                None => return Err(DxfError::UnexpectedEndOfInput),
            };
            proof {
                lemma_suffix_next(start, before);
            }
            if pair.is_marker("ENDSEC") {
                s.put_back(pair);
                assert(s@ =~= before);
                return Ok(header);
            }
            if pair.code == 9 && pair.value.is_text("$ACADVER") {
                let ghost mid = s@;
                proof {
                    if mid.len() > 0 {
                        lemma_suffix_next(start, mid);
                    }
                }
                match s.next() {
                    Some(q) => {
                        assert(before.skip(2) =~= s@);
                        if q.code == 1 && matches!(q.value, CodePairValue::Str(_)) {
                            match AcadVersion::from_text(&q.value) {
                                Some(v) => header.version = v,
                                None => {},
                            }
                        } else {
                            return Err(DxfError::UnexpectedCodePair(q, String::from_str("expected 1/<version>")));
                        }
                    },
                    None => return Err(DxfError::UnexpectedEndOfInput),
                }
            } else if pair.code == 9 && pair.value.is_text("$HANDLING") {
                let ghost mid = s@;
                let flag = Header::read_flag(s);
                proof {
                    lemma_read_step_chain(start, mid, s@, flag);
                    if mid.len() > 0 {
                        assert(before.skip(2) =~= mid.skip(1));
                    }
                }
                match flag {
                    Ok(h) => {
                        header.handles_enabled = h;
                    },
                    Err(e) => return Err(e),
                }
            } else {
                assert(before.skip(1) =~= s@);
            }
        }
    }

    /// Reads the `70` pair that gives whether handles are written.
    fn read_flag(s: &mut CodePairStream) -> (r: Result<bool, DxfError>)
        ensures
            read_step(old(s)@, final(s)@, r),
            old(s)@.len() == 0 ==> r == Err::<bool, DxfError>(DxfError::UnexpectedEndOfInput)
                && final(s)@ == old(s)@,
            old(s)@.len() > 0 ==> final(s)@ == old(s)@.skip(1),
            old(s)@.len() > 0 && old(s)@[0].code == 70 && old(s)@[0].value is Short ==> r == Ok::<
                bool,
                DxfError,
            >(old(s)@[0].value->Short_0 != 0),
            old(s)@.len() > 0 && !(old(s)@[0].code == 70 && old(s)@[0].value is Short) ==> (r matches Err(
                e,
            ) && same_error(e, bad_pair(old(s)@[0]))),
    {
        let ghost start = s@;
        proof {
            lemma_suffix_refl(start);
            if start.len() > 0 {
                lemma_suffix_next(start, start);
            }
        }
        match s.next() {
            Some(q) => {
                if q.code == 70 {
                    match q.value {
                        CodePairValue::Short(h) => {
                            return Ok(h != 0);
                        },
                        _ => {},
                    }
                }
                Err(DxfError::UnexpectedCodePair(q, String::from_str("expected 70/<flag>")))
            },
            None => Err(DxfError::UnexpectedEndOfInput),
        }
    }

    /// Appends the header section for this header: `$ACADVER` with the
    /// version's name and `$HANDLING` with 1 or 0.
    pub fn write(&self, out: &mut Vec<CodePair>)
        ensures
            final(out)@.take(old(out)@.len() as int) == old(out)@,
            header_written(*self, final(out)@.skip(old(out)@.len() as int)),
    {
        let ghost start = out@;
        out.push(CodePair::new_str(0, "SECTION"));
        out.push(CodePair::new_str(2, "HEADER"));
        out.push(CodePair::new_str(9, "$ACADVER"));
        out.push(CodePair::new_str(1, self.version.text()));
        out.push(CodePair::new_str(9, "$HANDLING"));
        out.push(CodePair::new_i16(70, if self.handles_enabled { 1 } else { 0 }));
        out.push(CodePair::new_str(0, "ENDSEC"));
        assert(out@.take(start.len() as int) =~= start);
        let ghost ps = out@.skip(start.len() as int);
        assert(ps.len() == 7);
        assert(ps[0] == out@[start.len() as int]);
        assert(ps[2] == out@[start.len() as int + 2]);
        assert(ps[3] == out@[start.len() as int + 3]);
        assert(ps[4] == out@[start.len() as int + 4]);
        assert(ps[5] == out@[start.len() as int + 5]);
        assert(ps[6] == out@[start.len() as int + 6]);
    }
}

/// `ps` is the header section written for `h`: `0/SECTION`, `2/HEADER`,
/// `9/$ACADVER` with the version's name under code 1, `9/$HANDLING` with 1 or
/// 0 under code 70, and `0/ENDSEC`.
pub open spec fn header_written(h: Header, ps: Seq<CodePair>) -> bool {
    &&& ps.len() == 7
    &&& is_marker(ps[0], "SECTION"@)
    &&& ps[2].code == 9 && is_text(ps[2].value, "$ACADVER"@)
    &&& ps[3].code == 1 && is_text(ps[3].value, version_text(h.version))
    &&& ps[4].code == 9 && is_text(ps[4].value, "$HANDLING"@)
    &&& ps[5].code == 70 && ps[5].value == CodePairValue::Short(if h.handles_enabled { 1 } else { 0 })
    &&& is_marker(ps[6], "ENDSEC"@)
}

proof fn lemma_version_named(v: CodePairValue, x: AcadVersion)
    requires
        is_text(v, version_text(x)),
    ensures
        version_named(v) == Some(x),
{
    reveal_strlit("AC1009");
    reveal_strlit("AC1012");
    reveal_strlit("AC1014");
    reveal_strlit("AC1015");
    reveal_strlit("AC1018");
    reveal_strlit("AC1021");
    reveal_strlit("AC1024");
    reveal_strlit("AC1027");
    reveal_strlit("AC1032");
    let t = v->Str_0@;
    assert(t.len() == 6);
    assert(t[4] == version_text(x)[4] && t[5] == version_text(x)[5]);
}

/// The header section as written reads back as the same header, whatever the
/// reading started from.
pub proof fn lemma_header_round_trip(h: Header, ps: Seq<CodePair>, version: AcadVersion, handles: bool)
    requires
        header_written(h, ps),
    ensures
        header_read(ps.skip(2), version, handles) == (
            Ok::<(AcadVersion, bool), DxfError>((h.version, h.handles_enabled)),
            ps.skip(6),
        ),
{
    reveal_strlit("ENDSEC");
    reveal_strlit("$ACADVER");
    reveal_strlit("$HANDLING");
    lemma_version_named(ps[3].value, h.version);
    let body = ps.skip(2);
    assert(body[0] == ps[2] && body[1] == ps[3]);
    assert(!is_marker(body[0], "ENDSEC"@));
    let rest = body.skip(2);
    assert(rest[0] == ps[4] && rest[1] == ps[5]);
    assert(!is_marker(rest[0], "ENDSEC"@));
    assert("$HANDLING"@ != "$ACADVER"@) by {
        assert("$HANDLING"@.len() != "$ACADVER"@.len());
    }
    let last = rest.skip(2);
    assert(last[0] == ps[6]);
    assert(last =~= ps.skip(6));
    assert(header_read(rest, h.version, handles) == header_read(last, h.version, h.handles_enabled));
    assert(header_read(body, version, handles) == header_read(rest, h.version, handles));
}

} // verus!
