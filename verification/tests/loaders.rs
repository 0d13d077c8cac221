use nix_olde::available;
use nix_olde::cmd::{run_cmd, Outcome};
use nix_olde::error::OldeError;
use nix_olde::flake::Flake;
use nix_olde::installed;

fn strs(v: &[&str]) -> Vec<String> {
    v.iter().map(|s| s.to_string()).collect()
}

fn drv(name: Option<&str>, version: Option<&str>) -> installed::Derivation {
    installed::Derivation {
        name: name.map(|s| s.to_string()),
        version: version.map(|s| s.to_string()),
    }
}

fn installed_package(name: &str, version: &str) -> installed::Package {
    installed::Package { name: name.to_string(), version: version.to_string() }
}

fn available_package(attribute: &str, name: &str, pname: &str, version: &str) -> available::Package {
    available::Package {
        attribute: attribute.to_string(),
        name: name.to_string(),
        pname: pname.to_string(),
        version: version.to_string(),
    }
}

#[test]
fn derivations_with_name_and_version_are_the_installed_packages() {
    let drvs = vec![
        drv(Some("python3.10-networkx-2.8.6"), Some("2.8.6")),
        drv(Some("wrapper.sh"), None),
        drv(None, Some("1.0")),
        drv(None, None),
        drv(Some("bash-5.2"), Some("5.2")),
        drv(Some("python3.10-networkx-2.8.6"), Some("2.8.6")),
    ];
    let set = installed::get_packages(&drvs).unwrap();
    assert_eq!(
        *set.as_vec(),
        vec![
            installed_package("bash-5.2", "5.2"),
            installed_package("python3.10-networkx-2.8.6", "2.8.6"),
        ]
    );
}

#[test]
fn no_installed_package_is_a_failure() {
    assert_eq!(
        installed::get_packages(&vec![]),
        Err(OldeError::EmptyOutput("nix show-derivation".to_string()))
    );
    assert_eq!(
        installed::get_packages(&vec![drv(Some("script"), None), drv(None, None)]),
        Err(OldeError::EmptyOutput("nix show-derivation".to_string()))
    );
}

#[test]
fn derivations_are_read_from_text() {
    let text = b"{
        \"/nix/store/aaa-python3.10-networkx-2.8.6.drv\": {
            \"env\": {\"name\": \"python3.10-networkx-2.8.6\", \"pname\": \"networkx\",
                      \"version\": \"2.8.6\", \"builder\": \"/bin/sh\"},
            \"outputs\": {\"out\": {\"path\": \"/nix/store/bbb\"}}
        },
        \"/nix/store/ccc-builder.sh.drv\": {\"env\": {\"name\": \"builder.sh\"}},
        \"/nix/store/ddd-source.drv\": {\"env\": {\"version\": null}}
    }";
    assert_eq!(
        installed::parse_derivations(text),
        Ok(vec![
            drv(Some("python3.10-networkx-2.8.6"), Some("2.8.6")),
            drv(Some("builder.sh"), None),
            drv(None, None),
        ])
    );
}

#[test]
fn derivations_must_have_the_form_of_derivations() {
    for text in [
        &b"{"[..],
        b"[]",
        b"{\"a\": []}",
        b"{\"a\": {}}",
        b"{\"a\": {\"env\": []}}",
        b"{\"a\": {\"env\": {\"name\": 5}}}",
        b"{\"a\": {\"env\": {\"name\": \"n\", \"version\": false}}}",
    ] {
        assert!(
            matches!(installed::parse_derivations(text), Err(OldeError::JSONError(_))),
            "{:?}",
            text
        );
    }
}

#[test]
fn reading_derivations_from_json_agrees_with_reading_them_from_text() {
    let text = b"{\"a\": {\"env\": {\"name\": \"n\", \"version\": \"1\"}}}";
    let json = nix_olde::json::parse(text).unwrap();
    assert_eq!(installed::decode_derivations(&json), installed::parse_derivations(text));
    assert_eq!(installed::decode_derivations(&json), Ok(vec![drv(Some("n"), Some("1"))]));
}

#[test]
fn the_commands_for_the_installed_packages() {
    assert_eq!(
        installed::show_derivation_command("/nix/store/abc.drv"),
        strs(&[
            "nix",
            "--extra-experimental-features",
            "nix-command",
            "show-derivation",
            "-r",
            "/nix/store/abc.drv"
        ])
    );
    assert_eq!(
        installed::nixos_command(&None),
        strs(&["nix-instantiate", "<nixpkgs/nixos>", "-A", "system"])
    );
    assert_eq!(
        installed::nixos_command(&Some("/src/nixpkgs".to_string())),
        strs(&["nix-instantiate", "<nixpkgs/nixos>", "-A", "system", "-I", "nixpkgs=/src/nixpkgs"])
    );
    let flake = Flake::new(&None, "myhost");
    assert_eq!(
        installed::flakes_command(&flake, &None),
        strs(&[
            "nix",
            "--extra-experimental-features",
            "nix-command",
            "--extra-experimental-features",
            "flakes",
            "eval",
            "--impure",
            "--raw",
            "/etc/nixos#nixosConfigurations.myhost.config.system.build.toplevel.drvPath",
        ])
    );
    assert_eq!(
        installed::flakes_command(&flake, &Some("/src/nixpkgs".to_string())),
        strs(&[
            "nix",
            "--extra-experimental-features",
            "nix-command",
            "--extra-experimental-features",
            "flakes",
            "eval",
            "--impure",
            "--raw",
            "/etc/nixos#nixosConfigurations.myhost.config.system.build.toplevel.drvPath",
            "--override-input",
            "nixpkgs",
            "/src/nixpkgs",
        ])
    );
}

#[test]
fn the_path_of_the_derivation_is_what_the_command_wrote_without_white_space() {
    assert_eq!(
        installed::get_local_system_derivation_via_nixos(Ok("/nix/store/abc.drv\n".to_string())),
        Ok("/nix/store/abc.drv".to_string())
    );
    assert_eq!(
        installed::get_local_system_derivation_via_nixos(Ok(" \t/nix/store/a b.drv \r\n\n".to_string())),
        Ok("/nix/store/a b.drv".to_string())
    );
    assert_eq!(
        installed::get_local_system_derivation_via_nixos(Ok("\n".to_string())),
        Ok("".to_string())
    );
    assert_eq!(
        installed::get_local_system_derivation_via_nixos(Err(OldeError::IOError("gone".to_string()))),
        Err(OldeError::IOError("gone".to_string()))
    );
}

#[test]
fn the_derivation_comes_from_the_flake_first() {
    let failed = |what: &str| OldeError::CommandFailed {
        cmd: vec![what.to_string()],
        status: Some(1),
        stdout: vec![],
        stderr: b"error".to_vec(),
    };
    assert_eq!(
        installed::get_local_system_derivation(Ok("/a.drv".to_string()), Ok("/b.drv".to_string())),
        Ok("/a.drv".to_string())
    );
    assert_eq!(
        installed::get_local_system_derivation(Ok("/a.drv".to_string()), Err(failed("nix-instantiate"))),
        Ok("/a.drv".to_string())
    );
    assert_eq!(
        installed::get_local_system_derivation(Err(failed("nix")), Ok("/b.drv".to_string())),
        Ok("/b.drv".to_string())
    );
    assert_eq!(
        installed::get_local_system_derivation(Err(failed("nix")), Err(failed("nix-instantiate"))),
        Err(OldeError::MultipleErrors(vec![failed("nix"), failed("nix-instantiate")]))
    );
}

#[test]
fn the_records_of_the_query_are_the_available_packages() {
    let found = vec![
        available_package("nixos.zlib", "zlib-1.3", "zlib", "1.3"),
        available_package("nixos.python310Packages.networkx", "python3.10-networkx-2.8.6", "python3.10-networkx", "2.8.6"),
        available_package("nixos.zlib", "zlib-1.3", "zlib", "1.3"),
    ];
    let set = available::get_packages(&found).unwrap();
    assert_eq!(
        *set.as_vec(),
        vec![
            available_package("nixos.python310Packages.networkx", "python3.10-networkx-2.8.6", "python3.10-networkx", "2.8.6"),
            available_package("nixos.zlib", "zlib-1.3", "zlib", "1.3"),
        ]
    );
}

#[test]
fn no_available_package_is_a_failure() {
    assert_eq!(
        available::get_packages(&vec![]),
        Err(OldeError::EmptyOutput("nix-env query".to_string()))
    );
}

#[test]
fn available_packages_are_read_from_text() {
    let text = b"{
        \"nixos.python310Packages.networkx\": {
            \"name\": \"python3.10-networkx-2.8.6\",
            \"pname\": \"python3.10-networkx\",
            \"version\": \"2.8.6\",
            \"system\": \"x86_64-linux\",
            \"outputs\": {\"out\": null}
        },
        \"nixos.zlib\": {\"name\": \"zlib-1.3\", \"pname\": \"zlib\", \"version\": \"1.3\"}
    }";
    assert_eq!(
        available::parse_packages(text),
        Ok(vec![
            available_package("nixos.python310Packages.networkx", "python3.10-networkx-2.8.6", "python3.10-networkx", "2.8.6"),
            available_package("nixos.zlib", "zlib-1.3", "zlib", "1.3"),
        ])
    );
    let json = nix_olde::json::parse(text).unwrap();
    assert_eq!(available::decode_packages(&json), available::parse_packages(text));
}

#[test]
fn available_packages_must_have_the_form_of_packages() {
    for text in [
        &b"nothing"[..],
        b"[]",
        b"{\"a\": []}",
        b"{\"a\": {\"name\": \"n\", \"pname\": \"p\"}}",
        b"{\"a\": {\"name\": \"n\", \"pname\": \"p\", \"version\": null}}",
        b"{\"a\": {\"name\": \"n\", \"pname\": 1, \"version\": \"1\"}}",
    ] {
        assert!(
            matches!(available::parse_packages(text), Err(OldeError::JSONError(_))),
            "{:?}",
            text
        );
    }
}

#[test]
fn the_inputs_of_a_flake_are_read_from_text() {
    let text = b"{
        \"path\": \"/nix/store/xyz-source\",
        \"inputs\": {
            \"home-manager\": {\"inputs\": {}, \"path\": \"/nix/store/hm-source\"},
            \"nixpkgs\": {\"inputs\": {}, \"path\": \"/nix/store/2z-source\"}
        }
    }";
    let inputs = available::parse_inputs(text).unwrap();
    assert_eq!(
        inputs,
        vec![
            ("home-manager".to_string(), "/nix/store/hm-source".to_string()),
            ("nixpkgs".to_string(), "/nix/store/2z-source".to_string()),
        ]
    );
    assert_eq!(available::nixpkgs_input(&inputs), "/nix/store/2z-source");
    let json = nix_olde::json::parse(text).unwrap();
    assert_eq!(available::decode_inputs(&json), Ok(inputs));
}

#[test]
fn the_inputs_of_a_flake_must_have_their_form() {
    for text in [
        &b"{"[..],
        b"[]",
        b"{}",
        b"{\"inputs\": []}",
        b"{\"inputs\": {\"nixpkgs\": \"/path\"}}",
        b"{\"inputs\": {\"nixpkgs\": {}}}",
        b"{\"inputs\": {\"nixpkgs\": {\"path\": 3}}}",
    ] {
        assert!(
            matches!(available::parse_inputs(text), Err(OldeError::JSONError(_))),
            "{:?}",
            text
        );
    }
    assert_eq!(available::parse_inputs(b"{\"inputs\": {}}"), Ok(vec![]));
}

#[test]
fn the_nixpkgs_input_is_the_last_of_that_name() {
    let pair = |a: &str, b: &str| (a.to_string(), b.to_string());
    assert_eq!(available::nixpkgs_input(&vec![]), "");
    assert_eq!(available::nixpkgs_input(&vec![pair("other", "/o")]), "");
    assert_eq!(
        available::nixpkgs_input(&vec![pair("nixpkgs", "/first"), pair("x", "/x"), pair("nixpkgs", "/second")]),
        "/second"
    );
    assert_eq!(available::nixpkgs_input(&vec![pair("nixpkgs", "/n"), pair("z", "/z")]), "/n");
    assert_eq!(available::nixpkgs_input(&vec![pair("Nixpkgs", "/n")]), "");
}

#[test]
fn the_commands_for_the_available_packages() {
    let base = [
        "nix-env",
        "-qa",
        "--json",
        "--arg",
        "config",
        "import <nixpkgs/pkgs/top-level/packages-config.nix>",
        "--option",
        "build-users-group",
        "\"\"",
    ];
    assert_eq!(available::query_command(&None, ""), strs(&base));
    let mut with_flake = strs(&base);
    with_flake.extend(strs(&["-I", "nixpkgs=/nix/store/2z-source", "-f", "/nix/store/2z-source"]));
    assert_eq!(available::query_command(&None, "/nix/store/2z-source"), with_flake);
    let mut with_source = strs(&base);
    with_source.extend(strs(&["-I", "nixpkgs=/src/nixpkgs", "-f", "/src/nixpkgs"]));
    assert_eq!(
        available::query_command(&Some("/src/nixpkgs".to_string()), "/nix/store/2z-source"),
        with_source
    );
    assert_eq!(available::query_command(&Some("/src/nixpkgs".to_string()), ""), with_source);
    assert_eq!(
        available::archive_command("/etc/nixos"),
        strs(&[
            "nix",
            "--extra-experimental-features",
            "nix-command",
            "--extra-experimental-features",
            "flakes",
            "flake",
            "archive",
            "/etc/nixos",
            "--json",
        ])
    );
}

#[test]
fn a_command_that_succeeded_gives_its_output() {
    let outcome = Outcome {
        success: true,
        status: Some(0),
        stdout: b"out".to_vec(),
        stderr: b"warning".to_vec(),
    };
    assert_eq!(run_cmd(strs(&["nix", "eval"]), outcome), Ok(b"out".to_vec()));
}

#[test]
fn a_command_that_failed_gives_all_that_it_left() {
    let outcome = Outcome {
        success: false,
        status: Some(22),
        stdout: b"body".to_vec(),
        stderr: b"curl: (22)".to_vec(),
    };
    assert_eq!(
        run_cmd(strs(&["curl", "--fail-with-body"]), outcome),
        Err(OldeError::CommandFailed {
            cmd: strs(&["curl", "--fail-with-body"]),
            status: Some(22),
            stdout: b"body".to_vec(),
            stderr: b"curl: (22)".to_vec(),
        })
    );
    let killed = Outcome { success: false, status: None, stdout: vec![], stderr: vec![] };
    assert_eq!(
        run_cmd(strs(&["nix"]), killed),
        Err(OldeError::CommandFailed {
            cmd: strs(&["nix"]),
            status: None,
            stdout: vec![],
            stderr: vec![],
        })
    );
}
