//! The flake that describes the system, and the system's place in it.

use crate::text::chars_of;
use vstd::prelude::*;
use vstd::string::*;

verus! {

/// A flake and the name of a system that it configures.
#[derive(Debug, PartialEq, Eq)]
pub struct Flake {
    /// The flake, without the system's name: a path such as `/etc/nixos`, or
    /// a reference such as `github:user/nixos-config`.
    flake: String,
    /// The attribute of the flake that holds its systems.
    configurations_attribute: String,
    /// The name of the system among them.
    name: String,
}

/// What a `Flake` holds.
pub struct FlakeView {
    pub flake: Seq<char>,
    pub configurations_attribute: Seq<char>,
    pub name: Seq<char>,
}

impl View for Flake {
    type V = FlakeView;

    closed spec fn view(&self) -> FlakeView {
        FlakeView {
            flake: self.flake@,
            configurations_attribute: self.configurations_attribute@,
            name: self.name@,
        }
    }
}

/// The first `#` of `uri` stands at `k`.
pub open spec fn is_first_hash(uri: Seq<char>, k: int) -> bool {
    &&& 0 <= k < uri.len()
    &&& uri[k] == '#'
    &&& forall|j: int| 0 <= j < k ==> #[trigger] uri[j] != '#'
}

/// The descriptor that stands for none: the flake of the system itself.
pub open spec fn default_uri() -> Seq<char> {
    "/etc/nixos"@
}

/// The descriptor to go by: the one given, or the one that stands for none.
pub open spec fn uri_of(s: Option<String>) -> Seq<char> {
    match s {
        Some(uri) => uri@,
        None => default_uri(),
    }
}

/// The flake that a descriptor names on the machine `hostname`: what stands
/// before the first `#` is the flake and what stands behind it the system;
/// without a `#` the whole is the flake, and the system is the machine.
pub open spec fn flake_of(uri: Seq<char>, hostname: Seq<char>) -> FlakeView {
    if exists|k: int| is_first_hash(uri, k) {
        let k = choose|k: int| is_first_hash(uri, k);
        FlakeView {
            flake: uri.subrange(0, k),
            configurations_attribute: "nixosConfigurations"@,
            name: uri.subrange(k + 1, uri.len() as int),
        }
    } else {
        FlakeView { flake: uri, configurations_attribute: "nixosConfigurations"@, name: hostname }
    }
}

/// The attribute under which a flake holds the derivation of a system.
pub open spec fn system_attribute_of(f: FlakeView) -> Seq<char> {
    f.configurations_attribute + "."@ + f.name + ".config.system.build.toplevel.drvPath"@
}

/// The name of this machine, where it is valid Unicode.
///
/// Calls `gethostname::gethostname`, which asks the operating system. Nothing
/// is claimed of the name.
#[verifier::external_body]
fn local_hostname() -> (name: Option<String>) {
    gethostname::gethostname().into_string().ok()
}

/// The path to use for a flake: the canonical one where the flake is a path
/// that has one, else the flake as it was written.
pub fn resolve_flake(s: &str, canonical: Option<String>) -> (path: String)
    ensures
        path@ == (match canonical {
            Some(c) => c@,
            None => s@,
        }),
{
    match canonical {
        Some(c) => c,
        None => s.to_owned(),
    }
}

impl Flake {
    /// The flake that the descriptor `s` names on the machine `hostname`;
    /// without a descriptor, the flake of the system itself.
    pub fn new(s: &Option<String>, hostname: &str) -> (f: Flake)
        ensures
            f@ == flake_of(uri_of(*s), hostname@),
    {
        let uri: &str = match s {
            Some(u) => u.as_str(),
            None => "/etc/nixos",
        };
        let chars = chars_of(uri);
        let n = chars.len();
        let mut k: usize = 0;
        while k < n && chars[k] != '#'
            invariant
                chars@ == uri@,
                n == uri@.len(),
                0 <= k <= n,
                forall|j: int| 0 <= j < k ==> #[trigger] uri@[j] != '#',
            decreases n - k,
        {
            k += 1;
        }
        if k < n {
            proof {
                assert(is_first_hash(uri@, k as int));
                let c = choose|c: int| is_first_hash(uri@, c);
                assert(c == k) by {
                    if c < k {
                        assert(uri@[c] != '#');
                    } else if c > k {
                        assert(uri@[k as int] != '#');
                    }
                }
            }
            Flake {
                flake: uri.substring_char(0, k).to_owned(),
                configurations_attribute: "nixosConfigurations".to_owned(),
                name: uri.substring_char(k + 1, n).to_owned(),
            }
        } else {
            proof {
                assert forall|c: int| !is_first_hash(uri@, c) by {
                    if 0 <= c < uri@.len() {
                        assert(uri@[c] != '#');
                    }
                }
            }
            Flake {
                flake: uri.to_owned(),
                configurations_attribute: "nixosConfigurations".to_owned(),
                name: hostname.to_owned(),
            }
        }
    }

    /// The flake that the descriptor `s` names on this machine; none where
    /// the machine's name is not valid Unicode.
    pub fn local(s: &Option<String>) -> (r: Option<Flake>)
        ensures
            r matches Some(f) ==> exists|hostname: Seq<char>|
                f@ == #[trigger] flake_of(uri_of(*s), hostname),
    {
        match local_hostname() {
            Some(hostname) => {
                let f = Flake::new(s, hostname.as_str());
                assert(f@ == flake_of(uri_of(*s), hostname@));
                Some(f)
            },
            None => None,
        }
    }

    /// The same flake, at the path that `resolve_flake` gives.
    pub fn resolved(self, canonical: Option<String>) -> (f: Flake)
        ensures
            f@ == (FlakeView {
                flake: match canonical {
                    Some(c) => c@,
                    None => self@.flake,
                },
                ..self@
            }),
    {
        let flake = resolve_flake(self.flake.as_str(), canonical);
        Flake { flake, configurations_attribute: self.configurations_attribute, name: self.name }
    }

    /// The flake, without the system's name.
    pub fn path(&self) -> (path: String)
        ensures
            path@ == self@.flake,
    {
        self.flake.clone()
    }

    /// The attribute of the flake under which the derivation of the system
    /// stands.
    pub fn system_attribute(&self) -> (attribute: String)
        ensures
            attribute@ == system_attribute_of(self@),
    {
        let mut attribute = self.configurations_attribute.clone();
        attribute.append(".");
        attribute.append(self.name.as_str());
        attribute.append(".config.system.build.toplevel.drvPath");
        attribute
    }
}

} // verus!
