//! The privileges of the process.

use vstd::prelude::*;
use crate::error::{LinuxError, LinuxErrorView};
use crate::seqs;
use crate::strings;
use crate::text;

verus! {

/// The text behind `CapEff:` and a tab on a line.
pub open spec fn effective_on() -> spec_fn(Seq<char>) -> Option<Seq<char>> {
    |line: Seq<char>|
        if "CapEff:\t"@.is_prefix_of(line) {
            Some(line.skip("CapEff:\t"@.len() as int))
        } else {
            None
        }
}

/// What is wrong with a text that is no hexadecimal number of 64 bits: it is empty, or becomes
/// too large before the first character that is no digit, or has such a character.
pub open spec fn hex_fault(s: Seq<char>) -> Seq<char> {
    if s.len() == 0 {
        "cannot parse integer from empty string"@
    } else {
        digits_fault(if s.len() > 1 && s[0] == '+' { s.skip(1) } else { s }, 0)
    }
}

/// What is wrong with digits behind others whose value is `value`.
pub open spec fn digits_fault(s: Seq<char>, value: int) -> Seq<char>
    decreases s.len(),
{
    if s.len() == 0 {
        "invalid digit found in string"@
    } else {
        match text::digit_value(s[0], 16) {
            None => "invalid digit found in string"@,
            Some(d) => if value * 16 + d > u64::MAX {
                "number too large to fit in target type"@
            } else {
                digits_fault(s.skip(1), value * 16 + d)
            },
        }
    }
}

/// The effective capabilities that the status of a process states.
pub open spec fn effective_caps(status: Seq<char>) -> Result<u64, LinuxErrorView> {
    match seqs::first_some(text::lines(status), effective_on()) {
        Some(hex) => match text::number(text::trim(hex), 16, u64::MAX as int) {
            Some(v) => Ok(v as u64),
            None => Err(
                LinuxErrorView::Capability(
                    "Failed to parse CapEff hex: "@ + hex_fault(text::trim(hex)),
                ),
            ),
        },
        None => Err(LinuxErrorView::Capability("CapEff line not found in /proc/self/status"@)),
    }
}

/// Whether a process may administer networks: it is root, or bit 12 of its effective
/// capabilities is set.
pub open spec fn may_administer(is_root: bool, status: Option<Seq<char>>) -> bool {
    is_root || match status {
        Some(s) => match effective_caps(s) {
            Ok(caps) => caps / 4096 % 2 == 1,
            Err(_) => false,
        },
        None => false,
    }
}

fn describe_hex_fault(s: &str) -> (r: String)
    ensures
        r@ == hex_fault(s@),
{
    let v = strings::to_chars(s);
    if v.len() == 0 {
        return "cannot parse integer from empty string".to_owned();
    }
    let start: usize = if v.len() > 1 && v[0] == '+' {
        1
    } else {
        0
    };
    let mut value: u64 = 0;
    let mut i: usize = start;
    proof {
        assert(v@.skip(0) =~= v@);
    }
    while i < v.len()
        invariant
            i <= v.len(),
            v@ == s@,
            hex_fault(s@) == digits_fault(v@.skip(i as int), value as int),
        decreases v.len() - i,
    {
        proof {
            assert(v@.skip(i as int)[0] == v@[i as int]);
            assert(v@.skip(i as int).skip(1) =~= v@.skip(i + 1));
        }
        match strings::digit_value(v[i], 16) {
            None => {
                return "invalid digit found in string".to_owned();
            },
            Some(d) => {
                let wide: u128 = value as u128 * 16 + d as u128;
                if wide > u64::MAX as u128 {
                    return "number too large to fit in target type".to_owned();
                }
                value = wide as u64;
            },
        }
        i += 1;
    }
    "invalid digit found in string".to_owned()
}

pub struct CapabilityChecker;

impl CapabilityChecker {
    pub const CAP_NET_ADMIN_BIT: u64 = 4096;

    /// The effective capabilities that the status of the process states.
    pub fn get_effective_caps(status: &str) -> (r: Result<u64, LinuxError>)
        ensures
            match r {
                Ok(caps) => effective_caps(status@) == Ok::<u64, LinuxErrorView>(caps),
                Err(e) => effective_caps(status@) == Err::<u64, LinuxErrorView>(e@),
            },
    {
        let lines = strings::lines(status);
        let ghost all = text::lines(status@);
        let mut i: usize = 0;
        while i < lines.len()
            invariant
                i <= lines.len(),
                all == seqs::views(lines@),
                all == text::lines(status@),
                forall|j: int| 0 <= j < i ==> effective_on()(#[trigger] all[j]) is None,
            decreases lines.len() - i,
        {
            proof {
                assert(all[i as int] == lines@[i as int]@);
            }
            if let Some(hex) = strings::strip_prefix(lines[i], "CapEff:\t") {
                proof {
                    seqs::lemma_first_some_is(all, effective_on(), i as int);
                }
                let hex = strings::trim(hex);
                return match strings::number(hex, 16, u64::MAX) {
                    Some(caps) => Ok(caps),
                    None => Err(
                        LinuxError::Capability(
                            "Failed to parse CapEff hex: ".to_owned().concat(
                                describe_hex_fault(hex).as_str(),
                            ),
                        ),
                    ),
                };
            }
            i += 1;
        }
        proof {
            seqs::lemma_first_some_is(all, effective_on(), i as int);
        }
        Err(LinuxError::Capability("CapEff line not found in /proc/self/status".to_owned()))
    }

    /// Whether the process may administer networks; `status` is what its status file holds, if
    /// that can be read.
    pub fn has_cap_net_admin(is_root: bool, status: Option<&str>) -> (r: bool)
        ensures
            r == may_administer(is_root, seqs::opt_view(status)),
    {
        if is_root {
            return true;
        }
        match status {
            Some(s) => match Self::get_effective_caps(s) {
                Ok(caps) => {
                    proof {
                        assert((caps & 4096 != 0) == (caps / 4096 % 2 == 1)) by (bit_vector);
                    }
                    (caps & Self::CAP_NET_ADMIN_BIT) != 0
                },
                Err(_) => false,
            },
            None => false,
        }
    }

    pub fn check_net_admin(is_root: bool, status: Option<&str>) -> (r: Result<(), LinuxError>)
        ensures
            match r {
                Ok(_) => may_administer(is_root, seqs::opt_view(status)),
                Err(e) => !may_administer(is_root, seqs::opt_view(status)) && e@
                    == LinuxErrorView::Capability(
                    "Process lacks CAP_NET_ADMIN or root privileges to modify network tables"@,
                ),
            },
    {
        if Self::has_cap_net_admin(is_root, status) {
            Ok(())
        } else {
            Err(
                LinuxError::Capability(
                    "Process lacks CAP_NET_ADMIN or root privileges to modify network tables".to_owned(),
                ),
            )
        }
    }
}

/// Root may administer networks, and others exactly if bit 12 of their effective capabilities is
/// set.
pub proof fn law_who_may_administer(status: Seq<char>, caps: u64)
    ensures
        may_administer(true, Some(status)),
        may_administer(true, None),
        !may_administer(false, None),
        effective_caps(status) == Ok::<u64, LinuxErrorView>(caps) ==> (may_administer(
            false,
            Some(status),
        ) <==> (caps & (1u64 << 12)) != 0),
        effective_caps(status) is Err ==> !may_administer(false, Some(status)),
{
    assert(caps / 4096 % 2 == 1 <==> (caps & (1u64 << 12)) != 0) by (bit_vector);
}

} // verus!
