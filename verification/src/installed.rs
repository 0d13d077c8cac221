//! The packages that the running system is built from.

use crate::error::OldeError;
use crate::flake::{system_attribute_of, Flake};
use crate::json::{
    json_parse, lemma_object_view, malformed, member, member_names, member_values, optional_text,
    optional_text_of, parse, find, Json, JsonView,
};
use crate::ordered::{ascending, Order, Ordered, SortedSet};
use crate::text::{compare_str, lemma_str_lt_order, opt_view, str_lt, strings, trim, trimmed};
use vstd::prelude::*;
use vstd::string::*;

verus! {

/// An installed package, with the name and version of its build.
#[derive(Debug, PartialEq, Eq)]
pub struct Package {
    /// The full name of the build: not quite the project's name, then the version.
    pub name: String,
    /// The version of the build.
    pub version: String,
}

/// What a `Package` holds.
pub struct PackageView {
    pub name: Seq<char>,
    pub version: Seq<char>,
}

impl View for Package {
    type V = PackageView;

    open spec fn view(&self) -> PackageView {
        PackageView { name: self.name@, version: self.version@ }
    }
}

impl Ordered for Package {
    type Key = PackageView;

    open spec fn key(&self) -> PackageView {
        self@
    }

    /// By name, then by version.
    open spec fn key_lt(a: PackageView, b: PackageView) -> bool {
        str_lt(a.name, b.name) || (a.name == b.name && str_lt(a.version, b.version))
    }

    proof fn lemma_order(a: PackageView, b: PackageView, c: PackageView) {
        lemma_str_lt_order(a.name, b.name, c.name);
        lemma_str_lt_order(a.version, b.version, c.version);
    }

    fn compare(&self, other: &Self) -> (o: Order) {
        match compare_str(self.name.as_str(), other.name.as_str()) {
            Order::Same => compare_str(self.version.as_str(), other.version.as_str()),
            o => o,
        }
    }
}

/// The installed packages, each once, in ascending order.
pub type PackageSet = SortedSet<Package>;

/// What the environment of one derivation of the system says of it.
#[derive(Debug, PartialEq, Eq)]
pub struct Derivation {
    /// The name of the build, where the derivation has one.
    pub name: Option<String>,
    /// The version of the build, where the derivation has one.
    pub version: Option<String>,
}

/// What a `Derivation` holds.
pub struct DerivationView {
    pub name: Option<Seq<char>>,
    pub version: Option<Seq<char>>,
}

impl View for Derivation {
    type V = DerivationView;

    open spec fn view(&self) -> DerivationView {
        DerivationView { name: opt_view(self.name), version: opt_view(self.version) }
    }
}

/// The views of derivations.
pub open spec fn derivation_views(drvs: Seq<Derivation>) -> Seq<DerivationView> {
    drvs.map_values(|d: Derivation| d@)
}

/// Tells the derivations that are packages: those with a name and a version.
pub open spec fn is_versioned() -> spec_fn(DerivationView) -> bool {
    |d: DerivationView| d.name is Some && d.version is Some
}

/// Makes the package of a derivation that has a name and a version.
pub open spec fn package_of() -> spec_fn(DerivationView) -> PackageView {
    |d: DerivationView| PackageView { name: d.name.unwrap(), version: d.version.unwrap() }
}

/// The packages among the derivations, in the order of the derivations.
pub open spec fn packages_of(drvs: Seq<DerivationView>) -> Seq<PackageView> {
    drvs.filter(is_versioned()).map_values(package_of())
}

/// The installed packages among the derivations of the system.
///
/// A derivation without a name or without a version is no package, and is
/// passed over. It is a failure if no package is left.
pub fn get_packages(drvs: &Vec<Derivation>) -> (r: Result<PackageSet, OldeError>)
    ensures
        r is Ok <==> packages_of(derivation_views(drvs@)).len() > 0,
        r matches Ok(set) ==> ascending::<Package>(set@) && set@.to_set() == packages_of(
            derivation_views(drvs@),
        ).to_set(),
        r matches Err(e) ==> e.is_empty_output("nix show-derivation"@),
{
    let ghost views = derivation_views(drvs@);
    let mut set = PackageSet::new();
    let mut i: usize = 0;
    proof {
        assert(views.take(0) =~= Seq::empty());
        assert(packages_of(views.take(0)) =~= Seq::empty()) by {
            reveal(Seq::filter);
        }
        assert(set@.to_set() =~= packages_of(views.take(0)).to_set());
    }
    while i < drvs.len()
        invariant
            views == derivation_views(drvs@),
            0 <= i <= drvs.len(),
            set@.to_set() == packages_of(views.take(i as int)).to_set(),
        decreases drvs.len() - i,
    {
        let d = &drvs[i];
        let ghost before = packages_of(views.take(i as int));
        proof {
            assert(views[i as int] == d@);
            assert(views.take(i + 1) =~= views.take(i as int).push(d@));
            views.take(i as int).lemma_filter_push(d@, is_versioned());
            views.take(i as int).filter(is_versioned()).lemma_push_map_commute(package_of(), d@);
        }
        match (&d.name, &d.version) {
            (Some(n), Some(v)) => {
                let p = Package { name: n.clone(), version: v.clone() };
                assert(p@ == package_of()(d@));
                set.insert(p);
                proof {
                    before.lemma_push_to_set_commute(p@);
                }
            },
            _ => {},
        }
        i += 1;
    }
    proof {
        assert(views.take(drvs.len() as int) =~= views);
        let all = packages_of(views);
        if all.len() > 0 {
            assert(all.to_set().contains(all[0]));
            assert(set@.contains(all[0]));
        } else {
            assert(all.to_set() =~= Set::empty());
            if set@.len() > 0 {
                assert(set@.to_set().contains(set@[0]));
            }
        }
    }
    set.order();
    if set.is_empty() {
        Err(OldeError::EmptyOutput("nix show-derivation".to_owned()))
    } else {
        Ok(set)
    }
}

/// The command that asks the flake for the derivation of the system, with
/// an override of the package source where one is given.
pub open spec fn flakes_command_of(
    flake: Seq<char>,
    attribute: Seq<char>,
    nixpkgs: Option<Seq<char>>,
) -> Seq<Seq<char>> {
    seq![
        "nix"@,
        "--extra-experimental-features"@,
        "nix-command"@,
        "--extra-experimental-features"@,
        "flakes"@,
        "eval"@,
        "--impure"@,
        "--raw"@,
        flake + "#"@ + attribute,
    ] + match nixpkgs {
        Some(p) => seq!["--override-input"@, "nixpkgs"@, p],
        None => Seq::empty(),
    }
}

/// The command that asks the system's configuration for the derivation of
/// the system, with the package source where one is given.
pub open spec fn nixos_command_of(nixpkgs: Option<Seq<char>>) -> Seq<Seq<char>> {
    seq!["nix-instantiate"@, "<nixpkgs/nixos>"@, "-A"@, "system"@] + match nixpkgs {
        Some(p) => seq!["-I"@, "nixpkgs="@ + p],
        None => Seq::empty(),
    }
}

/// The command that lists the derivations that the derivation at
/// `drv_path` is built from.
pub open spec fn show_derivation_command_of(drv_path: Seq<char>) -> Seq<Seq<char>> {
    seq![
        "nix"@,
        "--extra-experimental-features"@,
        "nix-command"@,
        "show-derivation"@,
        "-r"@,
        drv_path,
    ]
}

/// The command that asks the flake for the derivation of the system.
pub fn flakes_command(flake: &Flake, nixpkgs: &Option<String>) -> (cmd: Vec<String>)
    ensures
        strings(cmd@) == flakes_command_of(
            flake@.flake,
            system_attribute_of(flake@),
            opt_view(*nixpkgs),
        ),
{
    let mut target = flake.path();
    target.append("#");
    target.append(flake.system_attribute().as_str());
    let mut cmd: Vec<String> = Vec::new();
    cmd.push("nix".to_owned());
    cmd.push("--extra-experimental-features".to_owned());
    cmd.push("nix-command".to_owned());
    cmd.push("--extra-experimental-features".to_owned());
    cmd.push("flakes".to_owned());
    cmd.push("eval".to_owned());
    cmd.push("--impure".to_owned());
    cmd.push("--raw".to_owned());
    cmd.push(target);
    match nixpkgs {
        Some(p) => {
            cmd.push("--override-input".to_owned());
            cmd.push("nixpkgs".to_owned());
            cmd.push(p.clone());
        },
        None => {},
    }
    assert(strings(cmd@) =~= flakes_command_of(
        flake@.flake,
        system_attribute_of(flake@),
        opt_view(*nixpkgs),
    ));
    cmd
}

/// The command that asks the system's configuration for the derivation of
/// the system.
pub fn nixos_command(nixpkgs: &Option<String>) -> (cmd: Vec<String>)
    ensures
        strings(cmd@) == nixos_command_of(opt_view(*nixpkgs)),
{
    let mut cmd: Vec<String> = Vec::new();
    cmd.push("nix-instantiate".to_owned());
    cmd.push("<nixpkgs/nixos>".to_owned());
    cmd.push("-A".to_owned());
    cmd.push("system".to_owned());
    match nixpkgs {
        Some(p) => {
            let mut a = "nixpkgs=".to_owned();
            a.append(p.as_str());
            cmd.push("-I".to_owned());
            cmd.push(a);
        },
        None => {},
    }
    assert(strings(cmd@) =~= nixos_command_of(opt_view(*nixpkgs)));
    cmd
}

/// The command that lists the derivations that the derivation at
/// `drv_path` is built from.
pub fn show_derivation_command(drv_path: &str) -> (cmd: Vec<String>)
    ensures
        strings(cmd@) == show_derivation_command_of(drv_path@),
{
    let mut cmd: Vec<String> = Vec::new();
    cmd.push("nix".to_owned());
    cmd.push("--extra-experimental-features".to_owned());
    cmd.push("nix-command".to_owned());
    cmd.push("show-derivation".to_owned());
    cmd.push("-r".to_owned());
    cmd.push(drv_path.to_owned());
    assert(strings(cmd@) =~= show_derivation_command_of(drv_path@));
    cmd
}

/// The path of the system's derivation, from what the command of
/// `nixos_command` wrote: that text without the white space around it.
pub fn get_local_system_derivation_via_nixos(out: Result<String, OldeError>) -> (r: Result<
    String,
    OldeError,
>)
    ensures
        match out {
            Ok(text) => r matches Ok(path) && path@ == trimmed(text@),
            Err(e) => r == Err::<String, OldeError>(e),
        },
{
    match out {
        Ok(text) => Ok(trim(text.as_str())),
        Err(e) => Err(e),
    }
}

/// The path of the system's derivation, from the two ways of asking for it:
/// what the flake gave where that went well, else what the system's
/// configuration gave, else both failures together.
pub fn get_local_system_derivation(
    via_flakes: Result<String, OldeError>,
    via_nixos: Result<String, OldeError>,
) -> (r: Result<String, OldeError>)
    ensures
        match (via_flakes, via_nixos) {
            (Ok(path), _) => r == Ok::<String, OldeError>(path),
            (Err(_), Ok(path)) => r == Ok::<String, OldeError>(path),
            (Err(e1), Err(e2)) => r is Err && r->Err_0.is_multiple(seq![e1, e2]),
        },
{
    match via_flakes {
        Ok(path) => Ok(path),
        Err(e1) => match via_nixos {
            Ok(path) => Ok(path),
            Err(e2) => {
                let mut errs: Vec<OldeError> = Vec::new();
                errs.push(e1);
                errs.push(e2);
                assert(errs@ =~= seq![e1, e2]);
                Err(OldeError::MultipleErrors(errs))
            },
        },
    }
}

/// The derivation that a JSON value stands for: an object with a member
/// `env`, itself an object with, where they are there and not `null`,
/// strings `name` and `version`.
pub open spec fn derivation_of(j: JsonView) -> Option<DerivationView> {
    match j {
        JsonView::Object(names, values) => match member(names, values, "env"@) {
            Some(JsonView::Object(env_names, env_values)) => match (
                optional_text(env_names, env_values, "name"@),
                optional_text(env_names, env_values, "version"@),
            ) {
                (Some(name), Some(version)) => Some(DerivationView { name, version }),
                _ => None,
            },
            _ => None,
        },
        _ => None,
    }
}

/// The derivations that a JSON value stands for: an object with one member
/// for each derivation.
pub open spec fn derivations_of(j: JsonView) -> Option<Seq<DerivationView>> {
    match j {
        JsonView::Object(names, values) => if forall|i: int|
            0 <= i < values.len() ==> derivation_of(#[trigger] values[i]) is Some {
            Some(Seq::new(values.len(), |i: int| derivation_of(values[i]).unwrap()))
        } else {
            None
        },
        _ => None,
    }
}

/// The derivations that a text stands for; none where the text is no JSON
/// or not of that form.
pub open spec fn text_derivations(bytes: Seq<u8>) -> Option<Seq<DerivationView>> {
    match json_parse(bytes) {
        Some(j) => derivations_of(j),
        None => None,
    }
}

/// Reads one derivation.
pub fn decode_derivation(json: &Json) -> (r: Result<Derivation, OldeError>)
    ensures
        match derivation_of(json@) {
            Some(d) => r matches Ok(drv) && drv@ == d,
            None => r matches Err(OldeError::JSONError(_)),
        },
{
    match json {
        Json::Object(members) => {
            proof {
                lemma_object_view(*members);
            }
            match find(members, "env") {
                Some(Json::Object(env)) => {
                    proof {
                        lemma_object_view(*env);
                    }
                    let name = optional_text_of(env, "name")?;
                    let version = optional_text_of(env, "version")?;
                    Ok(Derivation { name, version })
                },
                _ => Err(malformed("a derivation must have an environment")),
            }
        },
        _ => Err(malformed("a derivation must be an object")),
    }
}

/// Reads the derivations of a system.
pub fn decode_derivations(json: &Json) -> (r: Result<Vec<Derivation>, OldeError>)
    ensures
        match derivations_of(json@) {
            Some(ds) => r matches Ok(drvs) && derivation_views(drvs@) == ds,
            None => r matches Err(OldeError::JSONError(_)),
        },
{
    match json {
        Json::Object(members) => {
            proof {
                lemma_object_view(*members);
            }
            let ghost names = member_names(members@);
            let ghost values = member_values(members@);
            let mut drvs: Vec<Derivation> = Vec::new();
            let mut i: usize = 0;
            while i < members.len()
                invariant
                    json@ == JsonView::Object(names, values),
                    values == member_values(members@),
                    0 <= i <= members.len(),
                    drvs@.len() == i,
                    forall|j: int|
                        0 <= j < i ==> derivation_of(#[trigger] values[j]) == Some(drvs@[j]@),
                decreases members.len() - i,
            {
                match decode_derivation(&members[i].value) {
                    Ok(d) => {
                        drvs.push(d);
                    },
                    Err(e) => {
                        assert(derivation_of(values[i as int]) is None);
                        return Err(e);
                    },
                }
                i += 1;
            }
            proof {
                assert(derivation_views(drvs@) =~= Seq::new(
                    values.len(),
                    |i: int| derivation_of(values[i]).unwrap(),
                ));
            }
            Ok(drvs)
        },
        _ => Err(malformed("the derivations must be an object")),
    }
}

/// Reads what the command of `show_derivation_command` wrote. A text that
/// is no JSON, or not of the form of derivations, is a failure.
pub fn parse_derivations(bytes: &[u8]) -> (r: Result<Vec<Derivation>, OldeError>)
    ensures
        match text_derivations(bytes@) {
            Some(ds) => r matches Ok(drvs) && derivation_views(drvs@) == ds,
            None => r matches Err(OldeError::JSONError(_)),
        },
{
    let json = parse(bytes)?;
    decode_derivations(&json)
}

} // verus!
