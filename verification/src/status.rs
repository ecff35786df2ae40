use vstd::prelude::*;

verus! {

/// An optional integration the server can report as available.
#[derive(Debug, Clone, Copy, PartialEq, Eq, Structural)]
pub enum Integration {
    Strava,
}

/// What the status route reports: the running version, the enabled
/// integrations, and the hostnames the frontend may sync against.
#[derive(Debug)]
pub struct StatusModel {
    pub version: String,
    pub integrations: Vec<Integration>,
    pub hostnames: Vec<String>,
}

/// Assemble the status report: the integration list holds Strava
/// exactly when it is configured.
pub fn status_model(version: String, strava_enabled: bool, hostnames: Vec<String>) -> (r:
    StatusModel)
    ensures
        r.version == version,
        r.hostnames == hostnames,
        strava_enabled ==> r.integrations@ == seq![Integration::Strava],
        !strava_enabled ==> r.integrations@ == Seq::<Integration>::empty(),
{
    let mut integrations: Vec<Integration> = Vec::new();
    if strava_enabled {
        integrations.push(Integration::Strava);
        proof {
            assert(integrations@ =~= seq![Integration::Strava]);
        }
    } else {
        proof {
            assert(integrations@ =~= Seq::<Integration>::empty());
        }
    }
    StatusModel { version, integrations, hostnames }
}

} // verus!
