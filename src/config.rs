//! Application records: the listen ports and backend targets of each
//! proxied application.
use vstd::prelude::*;

verus! {

/// Every configured application.
pub struct Config {
    pub app: Vec<App>,
}

/// One proxied application: the ports it listens on and the backend
/// targets (`host:port`) it relays to, in round-robin order.
#[derive(Clone)]
pub struct App {
    pub name: String,
    pub ports: Vec<u16>,
    pub targets: Vec<String>,
}

/// Why an application record cannot be served.
#[derive(Debug, Clone, Copy, PartialEq, Eq, Structural)]
pub enum ConfigError {
    NoPorts,
    DuplicatePort,
    NoTargets,
}

pub open spec fn ports_unique(ports: Seq<u16>) -> bool {
    forall|i: int, j: int| 0 <= i < j < ports.len() ==> ports[i] != ports[j]
}

/// Whether some port occurs twice.
fn has_duplicate(ports: &Vec<u16>) -> (r: bool)
    ensures
        r == !ports_unique(ports@),
{
    let mut j: usize = 0;
    while j < ports.len()
        invariant
            j <= ports@.len(),
            forall|a: int, b: int| 0 <= a < b < j ==> ports@[a] != ports@[b],
        decreases ports@.len() - j,
    {
        let mut i: usize = 0;
        while i < j
            invariant
                i <= j < ports@.len(),
                forall|a: int| 0 <= a < i ==> ports@[a] != ports@[j as int],
            decreases j - i,
        {
            if ports[i] == ports[j] {
                return true;
            }
            i = i + 1;
        }
        j = j + 1;
    }
    false
}

impl App {
    /// Checks the record: at least one port, no port twice, at least one
    /// target. The errors are tried in that order.
    pub fn validate(&self) -> (r: Result<(), ConfigError>)
        ensures
            self.ports@.len() == 0 ==> r == Err::<(), ConfigError>(ConfigError::NoPorts),
            self.ports@.len() > 0 && !ports_unique(self.ports@) ==> r == Err::<(), ConfigError>(ConfigError::DuplicatePort),
            self.ports@.len() > 0 && ports_unique(self.ports@) && self.targets@.len() == 0
                ==> r == Err::<(), ConfigError>(ConfigError::NoTargets),
            r is Ok <==> self.ports@.len() > 0 && ports_unique(self.ports@) && self.targets@.len() > 0,
    {
        if self.ports.len() == 0 {
            Err(ConfigError::NoPorts)
        } else if has_duplicate(&self.ports) {
            Err(ConfigError::DuplicatePort)
        } else if self.targets.len() == 0 {
            Err(ConfigError::NoTargets)
        } else {
            Ok(())
        }
    }
}

} // verus!
