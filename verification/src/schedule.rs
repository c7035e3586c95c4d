use vstd::prelude::*;
use vstd::string::StrSliceExecFns;
use vstd::string::StringExecFns;

verus! {

/// Failure modes of the external one-shot timer protocol.
#[derive(PartialEq, Eq, Debug)]
pub enum ScheduleError {
    /// The timer facility exited non-zero; carries the captured output
    /// streams for diagnosis.
    ExternalProcess { stdout: String, stderr: String },
    /// The facility succeeded but its output did not contain the expected
    /// identifier marker; the identifier cannot be synthesized.
    Protocol,
}

/// Whether `pat` occurs in `s` starting at position `i`, and the first such
/// position at or after `i` if any.
pub open spec fn first_match_from(s: Seq<char>, pat: Seq<char>, i: int) -> Option<int>
    decreases s.len() - i + 1 when 0 <= i
{
    if i + pat.len() > s.len() {
        None
    } else if s.subrange(i, i + pat.len() as int) == pat {
        Some(i)
    } else {
        first_match_from(s, pat, i + 1)
    }
}

/// The timer job identifier carried by the facility's diagnostic output:
/// the substring strictly between the first occurrence of `run-` and the
/// first occurrence of `.timer` after it; None when that marker pattern is
/// absent.
pub open spec fn spec_extract_timer_id(s: Seq<char>) -> Option<Seq<char>> {
    match first_match_from(s, "run-"@, 0) {
        None => None,
        Some(i) => {
            let rest = s.subrange(i + "run-"@.len() as int, s.len() as int);
            match first_match_from(rest, ".timer"@, 0) {
                None => None,
                Some(j) => Some(rest.subrange(0, j)),
            }
        },
    }
}

/// A first match found at `i` really is a match there.
proof fn lemma_first_match_some(s: Seq<char>, pat: Seq<char>, k: int, i: int)
    requires
        0 <= k,
        first_match_from(s, pat, k) == Some(i),
    ensures
        k <= i,
        i + pat.len() <= s.len(),
        s.subrange(i, i + pat.len() as int) == pat,
    decreases s.len() - k + 1,
{
    if k + pat.len() > s.len() {
        assert(false);
    } else if s.subrange(k, k + pat.len() as int) == pat {
    } else {
        lemma_first_match_some(s, pat, k + 1, i);
    }
}

/// Whether `pat` occurs in `s` at exactly position `i`.
fn match_at_exec(s: &str, pat: &str, i: usize) -> (r: bool)
    requires
        i + pat@.len() <= s@.len(),
    ensures
        r == (s@.subrange(i as int, i as int + pat@.len() as int) == pat@),
{
    let slen = s.unicode_len();
    let plen = pat.unicode_len();
    let mut k: usize = 0;
    while k < plen
        invariant
            k <= plen,
            plen == pat@.len(),
            slen == s@.len(),
            i + plen <= slen,
            forall|t: int| 0 <= t < k ==> s@[i + t] == pat@[t],
        decreases plen - k,
    {
        if s.get_char(i + k) != pat.get_char(k) {
            proof {
                assert(s@.subrange(i as int, i as int + plen as int)[k as int] == s@[i + k]);
            }
            return false;
        }
        k = k + 1;
    }
    proof {
        assert(s@.subrange(i as int, i as int + plen as int) =~= pat@);
    }
    true
}

/// Position of the first occurrence of `pat` in `s`, if any.
fn find_from(s: &str, pat: &str) -> (r: Option<usize>)
    ensures
        match r {
            Some(i) => first_match_from(s@, pat@, 0) == Some(i as int),
            None => first_match_from(s@, pat@, 0) is None,
        },
{
    let slen = s.unicode_len();
    let plen = pat.unicode_len();
    if plen > slen {
        return None;
    }
    if plen == 0 {
        proof {
            assert(s@.subrange(0, 0) =~= pat@);
        }
        return Some(0);
    }
    let mut i: usize = 0;
    while i <= slen - plen
        invariant
            slen == s@.len(),
            plen == pat@.len(),
            0 < plen <= slen,
            i <= slen - plen + 1,
            first_match_from(s@, pat@, 0) == first_match_from(s@, pat@, i as int),
        decreases slen - plen - i + 1,
    {
        if match_at_exec(s, pat, i) {
            return Some(i);
        }
        i = i + 1;
    }
    None
}

/// Recovers the timer job identifier from the facility's diagnostic output:
/// the substring strictly between the first `run-` marker and the first
/// `.timer` marker after it. None when the pattern is absent.
pub fn extract_timer_id(stderr_output: &str) -> (r: Option<String>)
    ensures
        match r {
            Some(id) => spec_extract_timer_id(stderr_output@) == Some(id@),
            None => spec_extract_timer_id(stderr_output@) is None,
        },
{
    proof {
        reveal_strlit("run-");
        reveal_strlit(".timer");
    }
    match find_from(stderr_output, "run-") {
        None => None,
        Some(i) => {
            proof {
                lemma_first_match_some(stderr_output@, "run-"@, 0, i as int);
            }
            let slen = stderr_output.unicode_len();
            let rest = stderr_output.substring_char(i + 4, slen);
            match find_from(rest, ".timer") {
                None => None,
                Some(j) => {
                    proof {
                        lemma_first_match_some(rest@, ".timer"@, 0, j as int);
                    }
                    Some(rest.substring_char(0, j).to_owned())
                },
            }
        },
    }
}

/// The deterministic unit name addressing a registered timer job: the fixed
/// prefix `run-`, the identifier, and the fixed suffix `.timer`.
pub fn stop_unit_name(timer_id: &str) -> (r: String)
    ensures
        r@ == "run-"@ + timer_id@ + ".timer"@,
{
    let mut r = String::from_str("run-");
    r.append(timer_id);
    r.append(".timer");
    r
}

/// Decides the outcome of a `register` invocation of the external timer
/// facility from its exit status and captured output streams: on non-zero
/// exit the operation fails carrying both streams; on success the job
/// identifier is recovered from the error stream, and its absence is a
/// protocol failure.
pub fn register_decision(exit_ok: bool, stdout: String, stderr: String) -> (r: Result<
    String,
    ScheduleError,
>)
    ensures
        exit_ok && spec_extract_timer_id(stderr@) is Some ==> (r matches Ok(id) && id@
            == spec_extract_timer_id(stderr@)->Some_0),
        exit_ok && spec_extract_timer_id(stderr@) is None ==> r == Err::<String, _>(
            ScheduleError::Protocol,
        ),
        !exit_ok ==> r == Err::<String, _>(ScheduleError::ExternalProcess { stdout, stderr }),
{
    if !exit_ok {
        return Err(ScheduleError::ExternalProcess { stdout, stderr });
    }
    match extract_timer_id(stderr.as_str()) {
        Some(id) => Ok(id),
        None => Err(ScheduleError::Protocol),
    }
}

/// Relies on chrono::Utc::now: the current instant as whole UTC seconds
/// since the Unix epoch. Nothing is assumed of the clock's value.
#[verifier::external_body]
pub(crate) fn now_utc_secs() -> i64 {
    chrono::Utc::now().timestamp()
}

/// The absolute-time argument handed to the one-shot timer facility for a
/// given instant and UTC offset. The facility's calendar specification is a
/// fixed rendering of the instant shifted into that offset; it is a function
/// of the two arguments alone.
pub uninterp spec fn on_calendar_of(secs: int, offset_secs: int) -> Seq<char>;

/// Relies on chrono: DateTime::from_timestamp, FixedOffset::east_opt and
/// DateTime::format. Renders the instant, shifted to the given UTC offset,
/// as `--on-calendar=%F %T`. from_timestamp returns None only on an
/// out-of-range number of seconds, and east_opt only when the offset is not
/// strictly within one day of zero.
#[verifier::external_body]
fn format_on_calendar(secs: i64, offset_secs: i32) -> (r: Option<String>)
    ensures
        r matches Some(s) ==> s@ == on_calendar_of(secs as int, offset_secs as int),
        (-86400 < offset_secs < 86400 && -4000000000000 <= secs <= 4000000000000) ==> r is Some,
{
    let utc = match chrono::DateTime::from_timestamp(secs, 0) {
        Some(x) => x,
        None => return None,
    };
    let off = match chrono::FixedOffset::east_opt(offset_secs) {
        Some(x) => x,
        None => return None,
    };
    Some(utc.with_timezone(&off).format("--on-calendar=%F %T").to_string())
}

/// The argument list that arms the external one-shot timer facility to
/// re-invoke this program with the update request at the given instant,
/// rendered in the given UTC offset. None when the instant or offset is out
/// of the facility's representable range.
pub fn register_command(event_secs: i64, offset_secs: i32) -> (r: Option<Vec<String>>)
    ensures
        r matches Some(args) ==> args@.len() == 4 && args@[0]@ == "systemd-run"@ && args@[1]@
            == "--user"@ && args@[2]@ == on_calendar_of(event_secs as int, offset_secs as int)
            && args@[3]@ == "prawnd"@,
        (-86400 < offset_secs < 86400 && -4000000000000 <= event_secs <= 4000000000000) ==> r
            is Some,
{
    match format_on_calendar(event_secs, offset_secs) {
        None => None,
        Some(cal) => {
            let mut args: Vec<String> = Vec::new();
            args.push(String::from_str("systemd-run"));
            args.push(String::from_str("--user"));
            args.push(cal);
            args.push(String::from_str("prawnd"));
            Some(args)
        },
    }
}

/// The argument list that cancels a previously registered timer job: the
/// facility's stop operation addressed by the deterministic unit name
/// derived from the identifier.
pub fn stop_command(timer_id: &str) -> (r: Vec<String>)
    ensures
        r@.len() == 4,
        r@[0]@ == "systemctl"@,
        r@[1]@ == "--user"@,
        r@[2]@ == "stop"@,
        r@[3]@ == "run-"@ + timer_id@ + ".timer"@,
{
    let mut args: Vec<String> = Vec::new();
    args.push(String::from_str("systemctl"));
    args.push(String::from_str("--user"));
    args.push(String::from_str("stop"));
    args.push(stop_unit_name(timer_id));
    args
}

} // verus!
