//! Checks of the host.

use vstd::prelude::*;
use crate::classifier::{self, InterfaceClassifier};
use crate::error::{LinuxError, LinuxErrorView};
use crate::model::{Interface, InterfaceRole, InterfaceView};
use crate::seqs;
use crate::strings;
use crate::text;

verus! {

pub struct DoctorReport {
    /// The name of each check, whether it passed, and what was found.
    pub checks: Vec<(String, bool, String)>,
}

impl View for DoctorReport {
    type V = Seq<(Seq<char>, bool, Seq<char>)>;

    open spec fn view(&self) -> Seq<(Seq<char>, bool, Seq<char>)> {
        Seq::new(
            self.checks@.len(),
            |i: int| (self.checks@[i].0@, self.checks@[i].1, self.checks@[i].2@),
        )
    }
}

/// Whether an interface looks like one of the LAN.
pub open spec fn is_lan(wan: Option<Seq<char>>) -> spec_fn(InterfaceView) -> bool {
    |i: InterfaceView| classifier::role_of(i, wan, Seq::empty()) == InterfaceRole::Lan
}

/// What is found of the privileges.
pub open spec fn privileges_check(has_caps: bool) -> (Seq<char>, bool, Seq<char>) {
    (
        "Privileges (CAP_NET_ADMIN)"@,
        has_caps,
        if has_caps {
            "Process has network administrative capabilities"@
        } else {
            "Lacks CAP_NET_ADMIN. Daemon must be run as root or with setcap cap_net_admin+ep"@
        },
    )
}

/// What is found of the default route.
pub open spec fn wan_check(wan: Option<Seq<char>>) -> (Seq<char>, bool, Seq<char>) {
    match wan {
        Some(w) => ("Default WAN route"@, true, "Found default WAN interface: "@ + w),
        None => (
            "Default WAN route"@,
            false,
            "No default route found. Internet access might be down"@,
        ),
    }
}

/// What is found of the interfaces.
pub open spec fn interface_checks(
    interfaces: Result<Seq<InterfaceView>, LinuxErrorView>,
    wan: Option<Seq<char>>,
) -> Seq<(Seq<char>, bool, Seq<char>)> {
    match interfaces {
        Ok(all) => {
            let lan = seqs::keep(all, is_lan(wan)).len();
            seq![
                (
                    "Netlink interface access"@,
                    true,
                    "Discovered "@ + text::decimal(all.len()) + " network interfaces"@,
                ),
                wan_check(wan),
                (
                    "LAN interface candidates"@,
                    lan > 0,
                    "Detected "@ + text::decimal(lan) + " potential LAN interface(s)"@,
                ),
            ]
        },
        Err(e) => seq![
            ("Netlink interface access"@, false, "Failed to query interfaces: "@ + e.text()),
        ],
    }
}

/// What is found of the routing tables.
pub open spec fn table_check(table: Result<u32, LinuxErrorView>) -> (Seq<char>, bool, Seq<char>) {
    match table {
        Ok(t) => (
            "Routing table allocation"@,
            true,
            "Table "@ + text::decimal(t as nat) + " is free and available"@,
        ),
        Err(e) => (
            "Routing table allocation"@,
            false,
            "Failed to allocate routing table: "@ + e.text(),
        ),
    }
}

/// What is found of the resolver.
pub open spec fn dns_check(backend: Seq<char>, available: bool) -> (Seq<char>, bool, Seq<char>) {
    ("DNS Backend"@, available && backend != "Disabled"@, "Active backend: "@ + backend)
}

/// All that is found.
pub open spec fn diagnosis(
    has_caps: bool,
    interfaces: Result<Seq<InterfaceView>, LinuxErrorView>,
    wan: Option<Seq<char>>,
    table: Result<u32, LinuxErrorView>,
    backend: Seq<char>,
    available: bool,
) -> Seq<(Seq<char>, bool, Seq<char>)> {
    seq![privileges_check(has_caps)] + interface_checks(interfaces, wan) + seq![
        table_check(table),
        dns_check(backend, available),
    ]
}

/// The interfaces that were read, in specifications.
pub open spec fn interfaces_view(r: Result<Vec<Interface>, LinuxError>) -> Result<
    Seq<InterfaceView>,
    LinuxErrorView,
> {
    match r {
        Ok(v) => Ok(seqs::views(v@)),
        Err(e) => Err(e@),
    }
}

/// The table that was found, in specifications.
pub open spec fn table_view(r: Result<u32, LinuxError>) -> Result<u32, LinuxErrorView> {
    match r {
        Ok(t) => Ok(t),
        Err(e) => Err(e@),
    }
}

fn count_lan(interfaces: &Vec<Interface>, wan: Option<&str>) -> (r: usize)
    ensures
        r == seqs::keep(seqs::views(interfaces@), is_lan(seqs::opt_view(wan))).len(),
{
    let ghost all = seqs::views(interfaces@);
    let ghost p = is_lan(seqs::opt_view(wan));
    let none: Vec<String> = Vec::new();
    let mut count: usize = 0;
    let mut i: usize = 0;
    proof {
        assert(all.take(0).len() == 0);
        assert(seqs::views(none@) =~= Seq::<Seq<char>>::empty());
    }
    while i < interfaces.len()
        invariant
            i <= interfaces.len(),
            all == seqs::views(interfaces@),
            p == is_lan(seqs::opt_view(wan)),
            seqs::views(none@) == Seq::<Seq<char>>::empty(),
            count <= i,
            count == seqs::keep(all.take(i as int), p).len(),
        decreases interfaces.len() - i,
    {
        proof {
            seqs::lemma_take_next(all, i as int);
            assert(all[i as int] == interfaces@[i as int]@);
        }
        if InterfaceClassifier::classify(&interfaces[i], wan, none.as_slice())
            == InterfaceRole::Lan {
            count += 1;
        }
        i += 1;
    }
    proof {
        seqs::lemma_take_all(all);
    }
    count
}

/// Tells what is found of the host, check by check.
pub fn run_doctor(
    has_caps: bool,
    interfaces: &Result<Vec<Interface>, LinuxError>,
    wan: Option<&str>,
    table: &Result<u32, LinuxError>,
    backend: &str,
    available: bool,
) -> (r: DoctorReport)
    ensures
        r@ == diagnosis(
            has_caps,
            interfaces_view(*interfaces),
            seqs::opt_view(wan),
            table_view(*table),
            backend@,
            available,
        ),
{
    let mut checks: Vec<(String, bool, String)> = Vec::new();
    checks.push(
        (
            "Privileges (CAP_NET_ADMIN)".to_owned(),
            has_caps,
            if has_caps {
                "Process has network administrative capabilities".to_owned()
            } else {
                "Lacks CAP_NET_ADMIN. Daemon must be run as root or with setcap cap_net_admin+ep".to_owned()
            },
        ),
    );
    match interfaces {
        Ok(all) => {
            checks.push(
                (
                    "Netlink interface access".to_owned(),
                    true,
                    "Discovered ".to_owned().concat(
                        strings::decimal(all.len() as u64).as_str(),
                    ).concat(" network interfaces"),
                ),
            );
            checks.push(
                (
                    "Default WAN route".to_owned(),
                    wan.is_some(),
                    match wan {
                        Some(w) => "Found default WAN interface: ".to_owned().concat(w),
                        None => {
                            "No default route found. Internet access might be down".to_owned()
                        },
                    },
                ),
            );
            let lan = count_lan(all, wan);
            checks.push(
                (
                    "LAN interface candidates".to_owned(),
                    lan > 0,
                    "Detected ".to_owned().concat(strings::decimal(lan as u64).as_str()).concat(
                        " potential LAN interface(s)",
                    ),
                ),
            );
        },
        Err(e) => {
            checks.push(
                (
                    "Netlink interface access".to_owned(),
                    false,
                    "Failed to query interfaces: ".to_owned().concat(e.to_string().as_str()),
                ),
            );
        },
    }
    match table {
        Ok(t) => {
            checks.push(
                (
                    "Routing table allocation".to_owned(),
                    true,
                    "Table ".to_owned().concat(strings::decimal(*t as u64).as_str()).concat(
                        " is free and available",
                    ),
                ),
            );
        },
        Err(e) => {
            checks.push(
                (
                    "Routing table allocation".to_owned(),
                    false,
                    "Failed to allocate routing table: ".to_owned().concat(e.to_string().as_str()),
                ),
            );
        },
    }
    checks.push(
        (
            "DNS Backend".to_owned(),
            available && !strings::same(backend, "Disabled"),
            "Active backend: ".to_owned().concat(backend),
        ),
    );
    let report = DoctorReport { checks };
    proof {
        assert(report@ =~= diagnosis(
            has_caps,
            interfaces_view(*interfaces),
            seqs::opt_view(wan),
            table_view(*table),
            backend@,
            available,
        ));
    }
    report
}

/// What the checks pass for: privileges if there are any, access if the interfaces could be read,
/// a default route if there is one, a LAN if some interface looks like it, a table if one is
/// free, and a resolver if one that is not disabled is there.
pub proof fn law_what_the_checks_pass_for(
    has_caps: bool,
    all: Seq<InterfaceView>,
    wan: Option<Seq<char>>,
    table: Result<u32, LinuxErrorView>,
    backend: Seq<char>,
    available: bool,
    e: LinuxErrorView,
)
    ensures
        ({
            let d = diagnosis(has_caps, Ok(all), wan, table, backend, available);
            &&& d.len() == 6
            &&& d[0].1 == has_caps
            &&& d[1].1
            &&& d[2].1 <==> wan is Some
            &&& d[3].1 <==> exists|i: int|
                0 <= i < all.len() && classifier::role_of(
                    #[trigger] all[i],
                    wan,
                    Seq::empty(),
                ) is Lan
            &&& d[4].1 <==> table is Ok
            &&& d[5].1 <==> available && backend != "Disabled"@
        }),
        ({
            let d = diagnosis(has_caps, Err(e), wan, table, backend, available);
            &&& d.len() == 4
            &&& d[0].1 == has_caps
            &&& !d[1].1
            &&& d[2].1 <==> table is Ok
            &&& d[3].1 <==> available && backend != "Disabled"@
        }),
{
    let p = is_lan(wan);
    let lan = seqs::keep(all, p);
    seqs::lemma_keep(all, p);
    if lan.len() > 0 {
        assert(lan.contains(lan[0]));
        let i = choose|i: int| 0 <= i < all.len() && all[i] == lan[0];
        assert(p(all[i]));
        assert(classifier::role_of(all[i], wan, Seq::empty()) is Lan);
    }
    if exists|i: int|
        0 <= i < all.len() && classifier::role_of(#[trigger] all[i], wan, Seq::empty()) is Lan {
        let i = choose|i: int|
            0 <= i < all.len() && classifier::role_of(#[trigger] all[i], wan, Seq::empty()) is Lan;
        assert(p(all[i]));
        assert(all.contains(all[i]));
        assert(lan.contains(all[i]));
    }
}

} // verus!
