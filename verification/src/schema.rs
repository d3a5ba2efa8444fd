//! Versions of the exported AST schema.
use crate::ast::NodeId;
use crate::text::msg;
use vstd::prelude::*;

verus! {

pub const SCHEMA_VERSION: &'static str = "1.1.0";

#[derive(Debug, Clone, Copy, PartialEq, Eq, Structural)]
pub struct SchemaVersion {
    pub major: u32,
    pub minor: u32,
    pub patch: u32,
}

pub open spec fn is_digit(c: char) -> bool {
    '0' <= c && c <= '9'
}

pub open spec fn all_digits(s: Seq<char>) -> bool {
    forall|i: int| 0 <= i < s.len() ==> is_digit(#[trigger] s[i])
}

/// The value of a string of decimal digits.
pub open spec fn digits_value(s: Seq<char>) -> nat
    decreases s.len(),
{
    if s.len() == 0 {
        0
    } else {
        digits_value(s.drop_last()) * 10 + ((s.last() as u32) - ('0' as u32)) as nat
    }
}

/// The unsigned 32-bit number that `s` spells: an optional `+`, then at
/// least one decimal digit, and a value that fits.
pub open spec fn spec_parse_u32(s: Seq<char>) -> Option<u32> {
    let d = if s.len() > 0 && s[0] == '+' {
        s.drop_first()
    } else {
        s
    };
    if d.len() == 0 || !all_digits(d) || digits_value(d) > u32::MAX {
        None
    } else {
        Some(digits_value(d) as u32)
    }
}

/// Whether `s` holds no `.` in `[start, end)`.
pub open spec fn no_dot(s: Seq<char>, start: int, end: int) -> bool {
    forall|i: int| start <= i < end ==> s[i] != '.'
}

/// The three parts of a text with exactly two dots, at `d1 < d2`.
pub open spec fn version_parts(s: Seq<char>) -> Option<(Seq<char>, Seq<char>, Seq<char>)> {
    if exists|d1: int, d2: int|
        0 <= d1 < d2 < s.len() && s[d1] == '.' && s[d2] == '.' && no_dot(s, 0, d1) && no_dot(s, d1 + 1, d2)
            && no_dot(s, d2 + 1, s.len() as int) {
        let (d1, d2) = choose|d1: int, d2: int|
            0 <= d1 < d2 < s.len() && s[d1] == '.' && s[d2] == '.' && no_dot(s, 0, d1) && no_dot(s, d1 + 1, d2)
                && no_dot(s, d2 + 1, s.len() as int);
        Some((s.subrange(0, d1), s.subrange(d1 + 1, d2), s.subrange(d2 + 1, s.len() as int)))
    } else {
        None
    }
}

/// What `from_string` gives for a text: three dot-separated numbers, or
/// the message naming the first part that is no number.
pub open spec fn spec_version(s: Seq<char>) -> Result<SchemaVersion, Seq<char>> {
    match version_parts(s) {
        None => Err("Invalid version format"@),
        Some((a, b, c)) => match spec_parse_u32(a) {
            None => Err("Invalid major version"@),
            Some(major) => match spec_parse_u32(b) {
                None => Err("Invalid minor version"@),
                Some(minor) => match spec_parse_u32(c) {
                    None => Err("Invalid patch version"@),
                    Some(patch) => Ok(SchemaVersion { major, minor, patch }),
                },
            },
        },
    }
}

/// Parses `s[start..end]` as an unsigned 32-bit number.
fn parse_u32_range(s: &str, start: usize, end: usize) -> (r: Option<u32>)
    requires
        start <= end <= s@.len(),
    ensures
        r == spec_parse_u32(s@.subrange(start as int, end as int)),
{
    let ghost p = s@.subrange(start as int, end as int);
    let mut first = start;
    if start < end && s.get_char(start) == '+' {
        first = start + 1;
    }
    let ghost d = s@.subrange(first as int, end as int);
    proof {
        if start < end && s@[start as int] == '+' {
            assert(d =~= p.drop_first());
        } else {
            assert(d =~= p);
        }
    }
    assert(if p.len() > 0 && p[0] == '+' { d == p.drop_first() } else { d == p });
    if first == end {
        return None;
    }
    let mut value: u64 = 0;
    let mut too_big = false;
    let mut i: usize = first;
    while i < end
        invariant
            start <= first <= i <= end <= s@.len(),
            d == s@.subrange(first as int, end as int),
            p == s@.subrange(start as int, end as int),
            if p.len() > 0 && p[0] == '+' {
                d == p.drop_first()
            } else {
                d == p
            },
            all_digits(s@.subrange(first as int, i as int)),
            !too_big ==> value == digits_value(s@.subrange(first as int, i as int)) && value <= u32::MAX,
            too_big ==> digits_value(s@.subrange(first as int, i as int)) > u32::MAX,
        decreases end - i,
    {
        let c = s.get_char(i);
        if c < '0' || c > '9' {
            proof {
                assert(d[i - first] == c);
                assert(!is_digit(d[i - first]));
            }
            return None;
        }
        let digit: u64 = ((c as u32) - ('0' as u32)) as u64;
        proof {
            assert(s@.subrange(first as int, i + 1).drop_last() =~= s@.subrange(first as int, i as int));
            assert(s@.subrange(first as int, i + 1).last() == c);
        }
        if !too_big {
            value = value * 10 + digit;
            if value > 0xffff_ffff {
                too_big = true;
            }
        } else {
            proof {
                assert(digits_value(s@.subrange(first as int, i + 1)) >= digits_value(
                    s@.subrange(first as int, i as int),
                )) by (nonlinear_arith)
                    requires
                        digits_value(s@.subrange(first as int, i + 1)) == digits_value(
                            s@.subrange(first as int, i as int),
                        ) * 10 + digit,
                ;
            }
        }
        i = i + 1;
    }
    proof {
        assert(s@.subrange(first as int, i as int) =~= d);
    }
    if too_big {
        None
    } else {
        Some(value as u32)
    }
}

impl SchemaVersion {
    /// The version this library writes.
    pub fn current() -> (r: Self)
        ensures
            r == (SchemaVersion { major: 1, minor: 1, patch: 0 }),
    {
        SchemaVersion { major: 1, minor: 1, patch: 0 }
    }

    /// Reads `major.minor.patch`.
    pub fn from_string(version: &str) -> (r: Result<Self, String>)
        ensures
            match spec_version(version@) {
                Ok(v) => r == Ok::<SchemaVersion, String>(v),
                Err(m) => r matches Err(x) && x@ == m,
            },
    {
        let n = version.unicode_len();
        let mut dots: usize = 0;
        let mut d1: usize = 0;
        let mut d2: usize = 0;
        let mut i: usize = 0;
        while i < n
            invariant
                n == version@.len(),
                i <= n,
                dots <= 3,
                dots >= 1 ==> d1 < i && version@[d1 as int] == '.' && no_dot(version@, 0, d1 as int),
                dots == 1 ==> no_dot(version@, d1 + 1, i as int),
                dots >= 2 ==> d1 < d2 < i && version@[d2 as int] == '.' && no_dot(version@, d1 + 1, d2 as int),
                dots == 2 ==> no_dot(version@, d2 + 1, i as int),
                dots == 0 ==> no_dot(version@, 0, i as int),
                dots == 3 ==> !no_dot(version@, d2 + 1, n as int),
            decreases n - i,
        {
            if version.get_char(i) == '.' {
                if dots == 0 {
                    d1 = i;
                    dots = 1;
                } else if dots == 1 {
                    d2 = i;
                    dots = 2;
                } else if dots == 2 {
                    dots = 3;
                    proof {
                        assert(version@[i as int] == '.');
                    }
                }
            }
            i = i + 1;
        }
        if dots != 2 {
            proof {
                if version_parts(version@) is Some {
                    let (a1, a2) = choose|a1: int, a2: int|
                        0 <= a1 < a2 < version@.len() && version@[a1] == '.' && version@[a2] == '.' && no_dot(
                            version@,
                            0,
                            a1,
                        ) && no_dot(version@, a1 + 1, a2) && no_dot(version@, a2 + 1, version@.len() as int);
                    if dots == 0 {
                        assert(version@[a1] == '.');
                    } else if dots == 1 {
                        assert(a1 == d1) by {
                            if a1 < d1 {
                                assert(version@[a1] == '.');
                            } else if a1 > d1 {
                                assert(version@[d1 as int] == '.');
                            }
                        }
                        assert(version@[a2] == '.');
                    } else {
                        assert(a1 == d1) by {
                            if a1 < d1 {
                                assert(version@[a1] == '.');
                            } else if a1 > d1 {
                                assert(version@[d1 as int] == '.');
                            }
                        }
                        assert(a2 == d2) by {
                            if a2 < d2 {
                                assert(version@[a2] == '.');
                            } else if a2 > d2 {
                                assert(version@[d2 as int] == '.');
                            }
                        }
                        let w = choose|w: int| d2 + 1 <= w < n && version@[w] == '.';
                        assert(version@[w] == '.');
                    }
                }
            }
            return Err(msg("Invalid version format"));
        }
        proof {
            let s = version@;
            assert(0 <= d1 < d2 < s.len() && s[d1 as int] == '.' && s[d2 as int] == '.' && no_dot(s, 0, d1 as int)
                && no_dot(s, d1 + 1, d2 as int) && no_dot(s, d2 + 1, s.len() as int));
            let (a1, a2) = choose|a1: int, a2: int|
                0 <= a1 < a2 < s.len() && s[a1] == '.' && s[a2] == '.' && no_dot(s, 0, a1) && no_dot(s, a1 + 1, a2)
                    && no_dot(s, a2 + 1, s.len() as int);
            assert(a1 == d1) by {
                if a1 < d1 {
                    assert(s[a1] == '.');
                } else if a1 > d1 {
                    assert(s[d1 as int] == '.');
                }
            }
            assert(a2 == d2) by {
                if a2 < d2 {
                    assert(s[a2] == '.');
                } else if a2 > d2 {
                    assert(s[d2 as int] == '.');
                }
            }
        }
        let major = match parse_u32_range(version, 0, d1) {
            Some(v) => v,
            None => return Err(msg("Invalid major version")),
        };
        let minor = match parse_u32_range(version, d1 + 1, d2) {
            Some(v) => v,
            None => return Err(msg("Invalid minor version")),
        };
        let patch = match parse_u32_range(version, d2 + 1, n) {
            Some(v) => v,
            None => return Err(msg("Invalid patch version")),
        };
        Ok(SchemaVersion { major, minor, patch })
    }

    /// Versions are compatible when their major numbers agree.
    pub open spec fn spec_compatible(&self, other: &SchemaVersion) -> bool {
        self.major == other.major
    }

    /// Versions are compatible when their major numbers agree.
    pub fn is_compatible_with(&self, other: &SchemaVersion) -> (r: bool)
        ensures
            r == self.spec_compatible(other),
    {
        self.major == other.major
    }
}

/// Compatibility, as `is_compatible_with` answers it, is an equivalence:
/// every version is compatible with itself, compatibility goes both ways
/// and carries over; minor and patch numbers never decide it.
pub proof fn lemma_compatibility_is_equivalence(a: SchemaVersion, b: SchemaVersion, c: SchemaVersion)
    ensures
        a.spec_compatible(&a),
        a.spec_compatible(&b) == b.spec_compatible(&a),
        (a.spec_compatible(&b) && b.spec_compatible(&c)) ==> a.spec_compatible(&c),
        a.spec_compatible(&b) == a.spec_compatible(&SchemaVersion { major: b.major, minor: a.minor, patch: a.patch }),
{
}

/// Exports graphs in the stable schema; ids are deterministic when asked.
pub struct SchemaExporter {
    deterministic_ids: bool,
    id_map: Vec<(NodeId, String)>,
}

impl SchemaExporter {
    pub closed spec fn deterministic(&self) -> bool {
        self.deterministic_ids
    }

    pub closed spec fn assigned_ids(&self) -> Seq<(NodeId, String)> {
        self.id_map@
    }

    pub fn new(deterministic_ids: bool) -> (r: Self)
        ensures
            r.deterministic() == deterministic_ids,
            r.assigned_ids().len() == 0,
    {
        SchemaExporter { deterministic_ids, id_map: Vec::new() }
    }
}

} // verus!
