//! The packages that the local package source offers for installation.

use crate::error::OldeError;
use crate::json::{
    find, json_parse, lemma_object_view, malformed, member, member_names, member_values, parse,
    required_text, text_of, Json, JsonView,
};
use crate::ordered::{ascending, Order, Ordered, SortedSet};
use crate::text::{compare_str, lemma_str_lt_order, opt_view, same_str, str_lt, strings};
use vstd::prelude::*;
use vstd::string::*;

verus! {

/// A package that can be installed.
#[derive(Debug, PartialEq, Eq)]
pub struct Package {
    /// The attribute under which the package is installed; no two packages share it.
    pub attribute: String,
    /// The full name of the build, as an installed package carries it.
    pub name: String,
    /// The name of the project, as the upstream database knows it.
    pub pname: String,
    /// The version of the build.
    pub version: String,
}

/// What a `Package` holds.
pub struct PackageView {
    pub attribute: Seq<char>,
    pub name: Seq<char>,
    pub pname: Seq<char>,
    pub version: Seq<char>,
}

impl View for Package {
    type V = PackageView;

    open spec fn view(&self) -> PackageView {
        PackageView {
            attribute: self.attribute@,
            name: self.name@,
            pname: self.pname@,
            version: self.version@,
        }
    }
}

impl Ordered for Package {
    type Key = PackageView;

    open spec fn key(&self) -> PackageView {
        self@
    }

    /// By attribute, then name, then project name, then version.
    open spec fn key_lt(a: PackageView, b: PackageView) -> bool {
        if a.attribute != b.attribute {
            str_lt(a.attribute, b.attribute)
        } else if a.name != b.name {
            str_lt(a.name, b.name)
        } else if a.pname != b.pname {
            str_lt(a.pname, b.pname)
        } else {
            str_lt(a.version, b.version)
        }
    }

    proof fn lemma_order(a: PackageView, b: PackageView, c: PackageView) {
        lemma_str_lt_order(a.attribute, b.attribute, c.attribute);
        lemma_str_lt_order(a.name, b.name, c.name);
        lemma_str_lt_order(a.pname, b.pname, c.pname);
        lemma_str_lt_order(a.version, b.version, c.version);
    }

    fn compare(&self, other: &Self) -> (o: Order) {
        match compare_str(self.attribute.as_str(), other.attribute.as_str()) {
            Order::Same => match compare_str(self.name.as_str(), other.name.as_str()) {
                Order::Same => match compare_str(self.pname.as_str(), other.pname.as_str()) {
                    Order::Same => compare_str(self.version.as_str(), other.version.as_str()),
                    o => o,
                },
                o => o,
            },
            o => o,
        }
    }
}

/// The available packages, each once, in ascending order.
pub type PackageSet = SortedSet<Package>;

/// The views of packages.
pub open spec fn package_views(found: Seq<Package>) -> Seq<PackageView> {
    found.map_values(|p: Package| p@)
}

/// The available packages, from the records that the query gave. It is a
/// failure if the query gave none.
pub fn get_packages(found: &Vec<Package>) -> (r: Result<PackageSet, OldeError>)
    ensures
        r is Ok <==> found.len() > 0,
        r matches Ok(set) ==> ascending::<Package>(set@) && set@.to_set() == package_views(
            found@,
        ).to_set(),
        r matches Err(e) ==> e.is_empty_output("nix-env query"@),
{
    if found.len() == 0 {
        return Err(OldeError::EmptyOutput("nix-env query".to_owned()));
    }
    let ghost views = package_views(found@);
    let mut set = PackageSet::new();
    let mut i: usize = 0;
    proof {
        assert(set@.to_set() =~= views.take(0).to_set());
    }
    while i < found.len()
        invariant
            views == package_views(found@),
            0 <= i <= found.len(),
            set@.to_set() == views.take(i as int).to_set(),
        decreases found.len() - i,
    {
        let f = &found[i];
        let p = Package {
            attribute: f.attribute.clone(),
            name: f.name.clone(),
            pname: f.pname.clone(),
            version: f.version.clone(),
        };
        proof {
            assert(views[i as int] == p@);
            assert(views.take(i + 1) =~= views.take(i as int).push(p@));
            views.take(i as int).lemma_push_to_set_commute(p@);
        }
        set.insert(p);
        i += 1;
    }
    proof {
        assert(views.take(found.len() as int) =~= views);
    }
    set.order();
    Ok(set)
}

/// The inputs of a flake, each with its name and its path.
pub open spec fn input_views(inputs: Seq<(String, String)>) -> Seq<(Seq<char>, Seq<char>)> {
    inputs.map_values(|p: (String, String)| (p.0@, p.1@))
}

/// The path of the input named `nixpkgs` among the inputs of a flake, each
/// given by its name and its path: that of the last such input, and the
/// empty text where there is none.
pub open spec fn nixpkgs_input_of(inputs: Seq<(Seq<char>, Seq<char>)>) -> Seq<char>
    decreases inputs.len(),
{
    if inputs.len() == 0 {
        Seq::empty()
    } else if inputs.last().0 == "nixpkgs"@ {
        inputs.last().1
    } else {
        nixpkgs_input_of(inputs.drop_last())
    }
}

/// The path of the input named `nixpkgs` among the inputs of a flake.
pub fn nixpkgs_input(inputs: &Vec<(String, String)>) -> (path: String)
    ensures
        path@ == nixpkgs_input_of(input_views(inputs@)),
{
    let ghost views = input_views(inputs@);
    let mut path = String::new();
    let mut i: usize = 0;
    proof {
        assert(views.take(0) =~= Seq::empty());
    }
    while i < inputs.len()
        invariant
            views == input_views(inputs@),
            0 <= i <= inputs.len(),
            path@ == nixpkgs_input_of(views.take(i as int)),
        decreases inputs.len() - i,
    {
        proof {
            let next = views.take(i + 1);
            assert(next.last() == views[i as int]);
            assert(next.drop_last() =~= views.take(i as int));
        }
        if same_str(inputs[i].0.as_str(), "nixpkgs") {
            path = inputs[i].1.clone();
        }
        i += 1;
    }
    proof {
        assert(views.take(inputs.len() as int) =~= views);
    }
    path
}

/// The command that copies a flake with its inputs into the store and lists
/// them.
pub open spec fn archive_command_of(config_dir: Seq<char>) -> Seq<Seq<char>> {
    seq![
        "nix"@,
        "--extra-experimental-features"@,
        "nix-command"@,
        "--extra-experimental-features"@,
        "flakes"@,
        "flake"@,
        "archive"@,
        config_dir,
        "--json"@,
    ]
}

/// The package source that the query goes by: the one given; without one,
/// the `nixpkgs` input of the system's flake, where it has one.
pub open spec fn source_of(nixpkgs: Option<Seq<char>>, flake_nixpkgs: Seq<char>) -> Option<
    Seq<char>,
> {
    match nixpkgs {
        Some(p) => Some(p),
        None => if flake_nixpkgs.len() > 0 {
            Some(flake_nixpkgs)
        } else {
            None
        },
    }
}

/// The command that lists the available packages, those of the package
/// source where there is one.
pub open spec fn query_command_of(source: Option<Seq<char>>) -> Seq<Seq<char>> {
    seq![
        "nix-env"@,
        "-qa"@,
        "--json"@,
        "--arg"@,
        "config"@,
        "import <nixpkgs/pkgs/top-level/packages-config.nix>"@,
        "--option"@,
        "build-users-group"@,
        "\"\""@,
    ] + match source {
        Some(p) => seq!["-I"@, "nixpkgs="@ + p, "-f"@, p],
        None => Seq::empty(),
    }
}

/// The command that copies the flake at `config_dir` into the store and
/// lists its inputs.
pub fn archive_command(config_dir: &str) -> (cmd: Vec<String>)
    ensures
        strings(cmd@) == archive_command_of(config_dir@),
{
    let mut cmd: Vec<String> = Vec::new();
    cmd.push("nix".to_owned());
    cmd.push("--extra-experimental-features".to_owned());
    cmd.push("nix-command".to_owned());
    cmd.push("--extra-experimental-features".to_owned());
    cmd.push("flakes".to_owned());
    cmd.push("flake".to_owned());
    cmd.push("archive".to_owned());
    cmd.push(config_dir.to_owned());
    cmd.push("--json".to_owned());
    assert(strings(cmd@) =~= archive_command_of(config_dir@));
    cmd
}

/// The command that lists the available packages. `flake_nixpkgs` is the
/// path of the `nixpkgs` input of the system's flake, empty where the
/// system has no flake or the flake no such input; it counts only where no
/// package source is given.
pub fn query_command(nixpkgs: &Option<String>, flake_nixpkgs: &str) -> (cmd: Vec<String>)
    ensures
        strings(cmd@) == query_command_of(source_of(opt_view(*nixpkgs), flake_nixpkgs@)),
{
    let mut cmd: Vec<String> = Vec::new();
    cmd.push("nix-env".to_owned());
    cmd.push("-qa".to_owned());
    cmd.push("--json".to_owned());
    cmd.push("--arg".to_owned());
    cmd.push("config".to_owned());
    cmd.push("import <nixpkgs/pkgs/top-level/packages-config.nix>".to_owned());
    cmd.push("--option".to_owned());
    cmd.push("build-users-group".to_owned());
    cmd.push("\"\"".to_owned());
    let source: Option<&str> = match nixpkgs {
        Some(p) => Some(p.as_str()),
        None => if flake_nixpkgs.is_empty() {
            None
        } else {
            Some(flake_nixpkgs)
        },
    };
    match source {
        Some(p) => {
            let mut a = "nixpkgs=".to_owned();
            a.append(p);
            cmd.push("-I".to_owned());
            cmd.push(a);
            cmd.push("-f".to_owned());
            cmd.push(p.to_owned());
        },
        None => {},
    }
    assert(strings(cmd@) =~= query_command_of(source_of(opt_view(*nixpkgs), flake_nixpkgs@)));
    cmd
}

/// The package that the member of an object stands for: the member's name
/// is the attribute, and its value an object with strings `name`, `pname`
/// and `version`.
pub open spec fn package_of(attribute: Seq<char>, j: JsonView) -> Option<PackageView> {
    match j {
        JsonView::Object(names, values) => match (
            required_text(names, values, "name"@),
            required_text(names, values, "pname"@),
            required_text(names, values, "version"@),
        ) {
            (Some(name), Some(pname), Some(version)) => Some(
                PackageView { attribute, name, pname, version },
            ),
            _ => None,
        },
        _ => None,
    }
}

/// The packages that a JSON value stands for: an object with one member
/// for each package.
pub open spec fn packages_of(j: JsonView) -> Option<Seq<PackageView>> {
    match j {
        JsonView::Object(names, values) => if forall|i: int|
            0 <= i < values.len() ==> package_of(names[i], #[trigger] values[i]) is Some {
            Some(Seq::new(values.len(), |i: int| package_of(names[i], values[i]).unwrap()))
        } else {
            None
        },
        _ => None,
    }
}

/// The packages that a text stands for; none where the text is no JSON or
/// not of that form.
pub open spec fn text_packages(bytes: Seq<u8>) -> Option<Seq<PackageView>> {
    match json_parse(bytes) {
        Some(j) => packages_of(j),
        None => None,
    }
}

/// Reads one package.
pub fn decode_package(attribute: &String, json: &Json) -> (r: Result<Package, OldeError>)
    ensures
        match package_of(attribute@, json@) {
            Some(p) => r matches Ok(package) && package@ == p,
            None => r matches Err(OldeError::JSONError(_)),
        },
{
    match json {
        Json::Object(members) => {
            proof {
                lemma_object_view(*members);
            }
            let name = text_of(members, "name")?;
            let pname = text_of(members, "pname")?;
            let version = text_of(members, "version")?;
            Ok(Package { attribute: attribute.clone(), name, pname, version })
        },
        _ => Err(malformed("a package must be an object")),
    }
}

/// Reads the available packages.
pub fn decode_packages(json: &Json) -> (r: Result<Vec<Package>, OldeError>)
    ensures
        match packages_of(json@) {
            Some(ps) => r matches Ok(found) && package_views(found@) == ps,
            None => r matches Err(OldeError::JSONError(_)),
        },
{
    match json {
        Json::Object(members) => {
            proof {
                lemma_object_view(*members);
            }
            let ghost names = member_names(members@);
            let ghost values = member_values(members@);
            let mut found: Vec<Package> = Vec::new();
            let mut i: usize = 0;
            while i < members.len()
                invariant
                    json@ == JsonView::Object(names, values),
                    names == member_names(members@),
                    values == member_values(members@),
                    0 <= i <= members.len(),
                    found@.len() == i,
                    forall|j: int|
                        0 <= j < i ==> package_of(names[j], #[trigger] values[j]) == Some(
                            found@[j]@,
                        ),
                decreases members.len() - i,
            {
                match decode_package(&members[i].name, &members[i].value) {
                    Ok(p) => {
                        found.push(p);
                    },
                    Err(e) => {
                        assert(package_of(names[i as int], values[i as int]) is None);
                        return Err(e);
                    },
                }
                i += 1;
            }
            proof {
                assert(package_views(found@) =~= Seq::new(
                    values.len(),
                    |i: int| package_of(names[i], values[i]).unwrap(),
                ));
            }
            Ok(found)
        },
        _ => Err(malformed("the packages must be an object")),
    }
}

/// Reads what the command of `query_command` wrote. A text that is no
/// JSON, or not of the form of packages, is a failure.
pub fn parse_packages(bytes: &[u8]) -> (r: Result<Vec<Package>, OldeError>)
    ensures
        match text_packages(bytes@) {
            Some(ps) => r matches Ok(found) && package_views(found@) == ps,
            None => r matches Err(OldeError::JSONError(_)),
        },
{
    let json = parse(bytes)?;
    decode_packages(&json)
}

/// The path that the member of an object gives for an input: the member's
/// value is an object with a string `path`.
pub open spec fn input_path_of(j: JsonView) -> Option<Seq<char>> {
    match j {
        JsonView::Object(names, values) => required_text(names, values, "path"@),
        _ => None,
    }
}

/// The inputs that a JSON value stands for: an object with a member
/// `inputs`, itself an object with one member for each input.
pub open spec fn inputs_of(j: JsonView) -> Option<Seq<(Seq<char>, Seq<char>)>> {
    match j {
        JsonView::Object(names, values) => match member(names, values, "inputs"@) {
            Some(JsonView::Object(input_names, input_values)) => if forall|i: int|
                0 <= i < input_values.len() ==> input_path_of(#[trigger] input_values[i])
                    is Some {
                Some(
                    Seq::new(
                        input_values.len(),
                        |i: int| (input_names[i], input_path_of(input_values[i]).unwrap()),
                    ),
                )
            } else {
                None
            },
            _ => None,
        },
        _ => None,
    }
}

/// The inputs that a text stands for; none where the text is no JSON or
/// not of that form.
pub open spec fn text_inputs(bytes: Seq<u8>) -> Option<Seq<(Seq<char>, Seq<char>)>> {
    match json_parse(bytes) {
        Some(j) => inputs_of(j),
        None => None,
    }
}

/// Reads the inputs of a flake.
pub fn decode_inputs(json: &Json) -> (r: Result<Vec<(String, String)>, OldeError>)
    ensures
        match inputs_of(json@) {
            Some(ins) => r matches Ok(inputs) && input_views(inputs@) == ins,
            None => r matches Err(OldeError::JSONError(_)),
        },
{
    match json {
        Json::Object(top) => {
            proof {
                lemma_object_view(*top);
            }
            match find(top, "inputs") {
                Some(Json::Object(members)) => {
                    proof {
                        lemma_object_view(*members);
                    }
                    let ghost names = member_names(members@);
                    let ghost values = member_values(members@);
                    let mut inputs: Vec<(String, String)> = Vec::new();
                    let mut i: usize = 0;
                    while i < members.len()
                        invariant
                            inputs_of(json@) == if forall|i: int|
                                0 <= i < values.len() ==> input_path_of(#[trigger] values[i])
                                    is Some {
                                Some(
                                    Seq::new(
                                        values.len(),
                                        |i: int| (names[i], input_path_of(values[i]).unwrap()),
                                    ),
                                )
                            } else {
                                None
                            },
                            names == member_names(members@),
                            values == member_values(members@),
                            0 <= i <= members.len(),
                            inputs@.len() == i,
                            forall|j: int|
                                0 <= j < i ==> input_path_of(#[trigger] values[j]) == Some(
                                    inputs@[j].1@,
                                ) && inputs@[j].0@ == names[j],
                        decreases members.len() - i,
                    {
                        let path = match &members[i].value {
                            Json::Object(input) => {
                                proof {
                                    lemma_object_view(*input);
                                }
                                text_of(input, "path")
                            },
                            _ => Err(malformed("an input must be an object")),
                        };
                        match path {
                            Ok(p) => {
                                inputs.push((members[i].name.clone(), p));
                            },
                            Err(e) => {
                                assert(input_path_of(values[i as int]) is None);
                                return Err(e);
                            },
                        }
                        i += 1;
                    }
                    proof {
                        assert(input_views(inputs@) =~= Seq::new(
                            values.len(),
                            |i: int| (names[i], input_path_of(values[i]).unwrap()),
                        ));
                    }
                    Ok(inputs)
                },
                _ => Err(malformed("a flake must have inputs")),
            }
        },
        _ => Err(malformed("a flake must be an object")),
    }
}

/// Reads what the command of `archive_command` wrote. A text that is no
/// JSON, or not of the form of a flake with its inputs, is a failure.
pub fn parse_inputs(bytes: &[u8]) -> (r: Result<Vec<(String, String)>, OldeError>)
    ensures
        match text_inputs(bytes@) {
            Some(ins) => r matches Ok(inputs) && input_views(inputs@) == ins,
            None => r matches Err(OldeError::JSONError(_)),
        },
{
    let json = parse(bytes)?;
    decode_inputs(&json)
}

} // verus!
