//! The forced-alignment backend that runs the MMS model in a helper
//! process: which programs it runs, and the checks on the helper's reply.

use vstd::prelude::*;
use crate::text::{push_decimal, push_str, strings_view};

verus! {

broadcast use vstd::string::group_string_axioms;

/// The helper program of the MMS forced aligner and the Python that runs it.
#[derive(Debug, Clone)]
pub struct MmsForcedAlignBackend {
    python: String,
    helper: String,
}

/// The first of two optional choices that is there, else the fallback.
pub open spec fn first_choice(a: Option<Seq<char>>, b: Option<Seq<char>>, fallback: Seq<char>) -> Seq<
    char,
> {
    match a {
        Some(x) => x,
        None => match b {
            Some(y) => y,
            None => fallback,
        },
    }
}

/// The view of an optional string.
pub open spec fn opt_string_view(o: Option<String>) -> Option<Seq<char>> {
    match o {
        Some(s) => Some(s@),
        None => None,
    }
}

impl MmsForcedAlignBackend {
    pub closed spec fn spec_python(&self) -> Seq<char> {
        self.python@
    }

    pub closed spec fn spec_helper(&self) -> Seq<char> {
        self.helper@
    }

    /// The backend for the configured programs: the Python given by the
    /// environment, else the platform's default; the helper given by the
    /// environment, else the one bundled with the application, else the
    /// default script.
    pub fn from_choices(
        python_env: Option<String>,
        default_python: String,
        helper_env: Option<String>,
        resource_helper: Option<String>,
        default_helper: String,
    ) -> (r: Self)
        ensures
            r.spec_python() == first_choice(opt_string_view(python_env), None, default_python@),
            r.spec_helper() == first_choice(
                opt_string_view(helper_env),
                opt_string_view(resource_helper),
                default_helper@,
            ),
    {
        let python = match python_env {
            Some(p) => p,
            None => default_python,
        };
        let helper = match helper_env {
            Some(h) => h,
            None => match resource_helper {
                Some(h) => h,
                None => default_helper,
            },
        };
        MmsForcedAlignBackend { python, helper }
    }

    /// The helper script.
    pub fn helper_path(&self) -> (r: &str)
        ensures
            r@ == self.spec_helper(),
    {
        self.helper.as_str()
    }

    /// The Python that runs the helper.
    pub fn python_path(&self) -> (r: &str)
        ensures
            r@ == self.spec_python(),
    {
        self.python.as_str()
    }
}

/// What is wrong with a reply of the helper.
#[derive(Debug, Clone, PartialEq, Eq, Structural)]
pub enum AlignReplyError {
    /// The reply is not marked as a forced alignment by a named model.
    NotForcedAlign,
    /// The reply has `got` moras where the line has `expected`.
    MoraCount { got: usize, expected: usize },
    /// Mora `index` of the reply has the wrong index or kana, or bad times.
    BadMora { index: usize },
}

/// One mora of the helper's reply: its index, its kana, and whether its
/// times are good (finite, ordered, inside the line window, after the mora
/// before it).
#[derive(Debug, Clone)]
pub struct AlignedMoraCheck {
    pub mora_index: usize,
    pub mora: String,
    pub times_ok: bool,
}

/// Whether reply mora `i` matches mora `i` of the line and has good times.
pub open spec fn reply_mora_ok(r: AlignedMoraCheck, i: int, expected: Seq<Seq<char>>) -> bool {
    r.mora_index == i && r.mora@ == expected[i] && r.times_ok
}

/// The first reply mora from `i` on that fails its check (`len` if none).
pub open spec fn first_bad_mora(reply: Seq<AlignedMoraCheck>, expected: Seq<Seq<char>>, i: int) -> int
    decreases reply.len() - i,
{
    if 0 <= i < reply.len() && reply_mora_ok(reply[i], i, expected) {
        first_bad_mora(reply, expected, i + 1)
    } else {
        i
    }
}

/// The verdict on a reply of the helper for a line with moras `expected`:
/// the reply must come from a named forced-alignment model, have one mora
/// per mora of the line, and each mora must have its own index, the line's
/// kana and good times; the first failure is reported.
pub open spec fn spec_check_reply(
    source: Seq<char>,
    model: Seq<char>,
    expected: Seq<Seq<char>>,
    reply: Seq<AlignedMoraCheck>,
) -> Result<(), AlignReplyError> {
    if source != "ForcedAlign"@ || model.len() == 0 {
        Err(AlignReplyError::NotForcedAlign)
    } else if reply.len() != expected.len() {
        Err(AlignReplyError::MoraCount { got: reply.len() as usize, expected: expected.len() as usize })
    } else if first_bad_mora(reply, expected, 0) < reply.len() {
        Err(AlignReplyError::BadMora { index: first_bad_mora(reply, expected, 0) as usize })
    } else {
        Ok(())
    }
}

/// Checks a reply of the helper against the moras of the line.
pub fn check_reply(
    source: &str,
    model: &str,
    expected: &[String],
    reply: &[AlignedMoraCheck],
) -> (r: Result<(), AlignReplyError>)
    ensures
        r == spec_check_reply(source@, model@, strings_view(expected@), reply@),
{
    let ghost ex = strings_view(expected@);
    let marker = String::from_str("ForcedAlign");
    let src = String::from_str(source);
    if src != marker || model.unicode_len() == 0 {
        return Err(AlignReplyError::NotForcedAlign);
    }
    if reply.len() != expected.len() {
        return Err(AlignReplyError::MoraCount { got: reply.len(), expected: expected.len() });
    }
    let mut i: usize = 0;
    while i < reply.len()
        invariant
            i <= reply@.len(),
            reply@.len() == expected@.len(),
            source@ == "ForcedAlign"@,
            model@.len() > 0,
            ex == strings_view(expected@),
            first_bad_mora(reply@, ex, i as int) == first_bad_mora(reply@, ex, 0),
        decreases reply.len() - i,
    {
        let m = &reply[i];
        assert(ex[i as int] == expected@[i as int]@);
        let ok = m.mora_index == i && m.mora == expected[i] && m.times_ok;
        assert(ok == reply_mora_ok(reply@[i as int], i as int, ex));
        if !ok {
            assert(first_bad_mora(reply@, ex, i as int) == i);
            return Err(AlignReplyError::BadMora { index: i });
        }
        i += 1;
    }
    Ok(())
}

impl AlignReplyError {
    /// The message shown to the user.
    pub fn message(&self) -> (r: String)
        ensures
            r@ == match self {
                AlignReplyError::NotForcedAlign => "MMS FA helper 未返回真实 ForcedAlign 模型标识"@,
                AlignReplyError::MoraCount { got, expected } => "MMS FA 返回 "@ + crate::text::decimal_text(
                    *got as nat,
                ) + " 个 mora，期望 "@ + crate::text::decimal_text(*expected as nat) + " 个"@,
                AlignReplyError::BadMora { index } => "MMS FA 返回的第 "@ + crate::text::decimal_text(
                    *index as nat,
                ) + " 个 mora 时间无效"@,
            },
    {
        let mut r = String::new();
        match self {
            AlignReplyError::NotForcedAlign => {
                push_str(&mut r, "MMS FA helper 未返回真实 ForcedAlign 模型标识");
                assert(r@ =~= "MMS FA helper 未返回真实 ForcedAlign 模型标识"@);
            },
            AlignReplyError::MoraCount { got, expected } => {
                push_str(&mut r, "MMS FA 返回 ");
                push_decimal(&mut r, *got as u64, 0);
                push_str(&mut r, " 个 mora，期望 ");
                push_decimal(&mut r, *expected as u64, 0);
                push_str(&mut r, " 个");
                proof {
                    assert(crate::text::zero_padded(crate::text::decimal_text(*got as nat), 0)
                        == crate::text::decimal_text(*got as nat));
                    assert(crate::text::zero_padded(crate::text::decimal_text(*expected as nat), 0)
                        == crate::text::decimal_text(*expected as nat));
                }
                assert(r@ =~= "MMS FA 返回 "@ + crate::text::decimal_text(*got as nat)
                    + " 个 mora，期望 "@ + crate::text::decimal_text(*expected as nat) + " 个"@);
            },
            AlignReplyError::BadMora { index } => {
                push_str(&mut r, "MMS FA 返回的第 ");
                push_decimal(&mut r, *index as u64, 0);
                push_str(&mut r, " 个 mora 时间无效");
                proof {
                    assert(crate::text::zero_padded(crate::text::decimal_text(*index as nat), 0)
                        == crate::text::decimal_text(*index as nat));
                }
                assert(r@ =~= "MMS FA 返回的第 "@ + crate::text::decimal_text(*index as nat)
                    + " 个 mora 时间无效"@);
            },
        }
        r
    }
}

} // verus!
