use lean_to::extension::{
    find_latest_cached_proxy, find_lean4_lsp, find_or_download_proxy, is_stale, is_version_dir,
    language_server_command, server_argument, Arch, Asset, CacheEntry, Os, Packing, ProxyEvent,
    ProxyQuery, ProxyStage, ProxyStep, Release, ServerEvent, ServerQuery, ServerStage, ServerStep,
};
use lean_to::json::{parse, Json};

fn s(text: &str) -> String {
    text.to_string()
}

fn server_query(settings: &str, env: &[(&str, &str)], os: Os, arch: Arch) -> ServerQuery {
    ServerQuery {
        binary_path: None,
        settings: parse(settings.as_bytes()),
        env: env.iter().map(|(k, v)| (s(k), s(v))).collect(),
        os,
        arch,
    }
}

fn linux(settings: &str) -> ServerQuery {
    server_query(settings, &[("HOME", "/h")], Os::Linux, Arch::X8664)
}

fn release(names: &[&str]) -> Release {
    Release {
        version: s("v1"),
        assets: names
            .iter()
            .map(|n| Asset { name: s(n), download_url: format!("https://x/{n}") })
            .collect(),
    }
}

fn failure(step: ServerStep) -> String {
    match step {
        ServerStep::Failed(m) => m,
        other => panic!("{other:?}"),
    }
}

fn found(step: ServerStep) -> String {
    match step {
        ServerStep::Found(p) => p,
        other => panic!("{other:?}"),
    }
}

fn proxy_query(settings: &str, os: Os, arch: Arch) -> ProxyQuery {
    ProxyQuery { settings: parse(settings.as_bytes()), os, arch }
}

fn proxy_failure(step: ProxyStep) -> String {
    match step {
        ProxyStep::Failed(m) => m,
        other => panic!("{other:?}"),
    }
}

fn proxy_found(step: ProxyStep) -> String {
    match step {
        ProxyStep::Found(p) => p,
        other => panic!("{other:?}"),
    }
}

fn entry(name: &str, is_dir: bool, binary: bool, modified: Option<u128>) -> CacheEntry {
    CacheEntry {
        name: Some(s(name)),
        is_dir,
        binary: if binary { Some(format!("/c/{name}/p")) } else { None },
        modified,
    }
}

#[test]
fn a_server_in_the_settings_is_taken() {
    let mut q = linux("{}");
    assert!(matches!(find_lean4_lsp(&q, ServerEvent::Start), ServerStep::SearchPath(p) if p == "lake"));
    q.binary_path = Some(s("/my/lake"));
    assert_eq!(found(find_lean4_lsp(&q, ServerEvent::Start)), "/my/lake");
}

#[test]
fn a_server_on_the_search_path_is_taken() {
    let q = linux("{}");
    assert_eq!(found(find_lean4_lsp(&q, ServerEvent::PathSearched(Some(s("/bin/lake"))))), "/bin/lake");
}

#[test]
fn the_server_is_looked_for_at_home() {
    let place = |env: &[(&str, &str)], os: Os| match find_lean4_lsp(
        &server_query("{}", env, os, Arch::X8664),
        ServerEvent::PathSearched(None),
    ) {
        ServerStep::SearchAt(p) => (p.base, p.names),
        other => panic!("{other:?}"),
    };
    assert_eq!(
        place(&[("A", "1"), ("USERPROFILE", "/u"), ("HOME", "/h")], Os::Windows),
        (s("/u"), vec![s(".elan"), s("bin"), s("lake.exe")])
    );
    assert_eq!(
        place(&[("HOME", "/h"), ("ELAN_HOME", "/e")], Os::Mac),
        (s("/e"), vec![s("bin"), s("lake")])
    );
    let nowhere = server_query("{}", &[("PATH", "/p")], Os::Linux, Arch::X8664);
    assert_eq!(
        failure(find_lean4_lsp(&nowhere, ServerEvent::PathSearched(None))),
        "Failed to find ELAN_HOME, HOME, or USERPROFILE"
    );
    assert_eq!(found(find_lean4_lsp(&nowhere, ServerEvent::HomeSearched(s("/x"), true))), "/x");
}

#[test]
fn the_server_is_installed_where_the_settings_allow_it() {
    let home = || ServerEvent::HomeSearched(s("/x"), false);
    for settings in ["{}", "null", r#"{"elan_auto_install":false}"#, r#"{"elan_auto_install":1}"#] {
        assert_eq!(
            failure(find_lean4_lsp(&linux(settings), home())),
            "Failed to find lake in PATH or ELAN_HOME/default path. Enable lsp.lean4-lsp.settings.elan_auto_install or configure lsp.lean4-lsp.binary.path."
        );
    }
    assert!(matches!(
        find_lean4_lsp(&linux(r#"{"elan_auto_install":true}"#), home()),
        ServerStep::FetchRelease(r) if r == "leanprover/elan"
    ));
}

#[test]
fn the_installer_fits_the_host() {
    let all = [
        "elan-x86_64-unknown-linux-gnu.tar.gz",
        "elan-aarch64-apple-darwin.tar.gz",
        "elan-x86_64-pc-windows-msvc.zip",
    ];
    for (os, arch, index, packing, installer) in [
        (Os::Linux, Arch::X8664, 0, Packing::GzipTar, "elan-init"),
        (Os::Mac, Arch::Aarch64, 1, Packing::GzipTar, "elan-init"),
        (Os::Windows, Arch::X8664, 2, Packing::Zip, "elan-init.exe"),
    ] {
        let q = server_query("{}", &[], os, arch);
        match find_lean4_lsp(&q, ServerEvent::ReleaseFetched(Ok(release(&all)))) {
            ServerStep::Install(i) => {
                assert_eq!(i.download_url, format!("https://x/{}", all[index]));
                assert_eq!(i.version_dir, "elan-v1");
                assert_eq!((i.packing, i.installer.as_str()), (packing, installer));
                assert_eq!(i.args, vec!["-y", "--default-toolchain", "leanprover/lean4:stable"]);
            }
            other => panic!("{other:?}"),
        }
    }
    let q = linux(r#"{"elan_default_toolchain":"nightly"}"#);
    match find_lean4_lsp(&q, ServerEvent::ReleaseFetched(Ok(release(&all)))) {
        ServerStep::Install(i) => assert_eq!(i.args[2], "leanprover/lean4:nightly"),
        other => panic!("{other:?}"),
    }
}

#[test]
fn an_installation_of_the_server_can_fail() {
    let q = linux("{}");
    let after = |event: ServerEvent| failure(find_lean4_lsp(&q, event));
    assert_eq!(after(ServerEvent::ReleaseFetched(Err(s("offline")))), "offline");
    assert_eq!(
        after(ServerEvent::ReleaseFetched(Ok(release(&["other"])))),
        "No asset found matching: \"elan-x86_64-unknown-linux-gnu.tar.gz\""
    );
    let old = server_query("{}", &[], Os::Linux, Arch::X86);
    assert_eq!(
        failure(find_lean4_lsp(&old, ServerEvent::ReleaseFetched(Ok(release(&[]))))),
        "32-bit x86 architecture is not supported by elan"
    );
    let broken = |stage: ServerStage| after(ServerEvent::Installed(Err((stage, s("e")))));
    assert_eq!(broken(ServerStage::Download), "Failed to download file: e");
    assert_eq!(broken(ServerStage::CurrentDir), "Failed to get current directory: e");
    assert_eq!(broken(ServerStage::MakeExecutable), "e");
    assert_eq!(broken(ServerStage::Run), "e");
    assert_eq!(found(find_lean4_lsp(&q, ServerEvent::Installed(Ok(s("/i"))))), "/i");
}

#[test]
fn a_proxy_in_the_settings_is_taken() {
    let start = |settings: &str, arch: Arch| {
        find_or_download_proxy(&proxy_query(settings, Os::Linux, arch), ProxyEvent::Start)
    };
    assert_eq!(proxy_found(start(r#"{"proxy_path":"/p"}"#, Arch::X86)), "/p");
    assert!(matches!(start(r#"{"proxy_path":""}"#, Arch::X8664), ProxyStep::FindDir));
    assert!(matches!(start(r#"{"proxy_path":1}"#, Arch::Aarch64), ProxyStep::FindDir));
    assert_eq!(
        proxy_failure(start("{}", Arch::X86)),
        "32-bit x86 architecture is not supported"
    );
}

#[test]
fn the_latest_proxy_is_downloaded() {
    let q = proxy_query("{}", Os::Windows, Arch::X8664);
    assert!(matches!(
        find_or_download_proxy(&q, ProxyEvent::DirFound(Ok(()))),
        ProxyStep::FetchRelease(r) if r == "SrGaabriel/leander"
    ));
    let asset = "leander-proxy-x86_64-pc-windows-msvc.exe";
    match find_or_download_proxy(&q, ProxyEvent::ReleaseFetched(Ok(release(&[asset])))) {
        ProxyStep::Look { release: r, version_dir, binary } => {
            assert_eq!(r, release(&[asset]));
            assert_eq!((version_dir.as_str(), binary.as_str()), ("proxy-v1", "leander-proxy.exe"));
        }
        other => panic!("{other:?}"),
    }
    let look = |names: &[&str], there: bool| {
        find_or_download_proxy(&q, ProxyEvent::Looked(release(names), s("/p"), there))
    };
    assert_eq!(proxy_found(look(&[], true)), "/p");
    assert!(matches!(
        look(&["leander-proxy", asset], false),
        ProxyStep::Download(u) if u == format!("https://x/{asset}")
    ));
    assert_eq!(
        proxy_failure(look(&["leander-proxy"], false)),
        format!("leander release v1 has no asset named {asset}")
    );
    let old = proxy_query("{}", Os::Linux, Arch::X86);
    assert_eq!(
        proxy_failure(find_or_download_proxy(
            &old,
            ProxyEvent::Looked(release(&[]), s("/p"), false)
        )),
        "32-bit x86 architecture is not supported"
    );
    assert!(matches!(
        find_or_download_proxy(&q, ProxyEvent::Installed(Ok(s("/p")))),
        ProxyStep::CleanUp(p) if p == "/p"
    ));
}

#[test]
fn an_installation_of_the_proxy_can_fail() {
    let q = proxy_query("{}", Os::Mac, Arch::Aarch64);
    let after = |event: ProxyEvent| proxy_failure(find_or_download_proxy(&q, event));
    assert_eq!(after(ProxyEvent::DirFound(Err(s("e")))), "Failed to get current directory: e");
    let broken = |stage: ProxyStage| after(ProxyEvent::Installed(Err((stage, s("e")))));
    assert_eq!(broken(ProxyStage::CreateDir), "Failed to create proxy dir: e");
    assert_eq!(broken(ProxyStage::Download), "Failed to download proxy: e");
    assert_eq!(broken(ProxyStage::MakeExecutable), "e");
}

#[test]
fn without_a_release_a_kept_proxy_is_taken() {
    let q = proxy_query("{}", Os::Mac, Arch::Aarch64);
    match find_or_download_proxy(&q, ProxyEvent::ReleaseFetched(Err(s("offline")))) {
        ProxyStep::ListCache(binary, why) => {
            assert_eq!((binary.as_str(), why.as_str()), ("leander-proxy", "offline"))
        }
        other => panic!("{other:?}"),
    }
    let listed = |entries: Vec<CacheEntry>| {
        find_or_download_proxy(&q, ProxyEvent::CacheListed(s("offline"), entries))
    };
    assert_eq!(
        proxy_failure(listed(vec![])),
        "Failed to fetch latest leander release (offline)"
    );
    assert_eq!(proxy_found(listed(vec![entry("proxy-1", true, true, Some(4))])), "/c/proxy-1/p");
}

#[test]
fn the_kept_proxy_that_was_changed_last_is_the_latest() {
    let entries = vec![
        entry("proxy-1", true, true, Some(4)),
        entry("proxy-2", true, true, Some(9)),
        entry("proxy-3", true, true, Some(9)),
        entry("proxy-4", true, true, Some(8)),
        entry("proxy-5", true, false, Some(20)),
        entry("proxy-6", false, true, Some(20)),
        entry("proxy-7", true, true, None),
        entry("other", true, true, Some(20)),
        CacheEntry { name: None, is_dir: true, binary: Some(s("/b")), modified: Some(30) },
    ];
    assert_eq!(find_latest_cached_proxy(&entries), Some(s("/c/proxy-3/p")));
    assert_eq!(find_latest_cached_proxy(&vec![]), None);
}

#[test]
fn other_versions_are_stale() {
    let name = |n: &str| Some(s(n));
    assert!(is_version_dir(&name("proxy-v1"), true));
    assert!(!is_version_dir(&name("proxy-v1"), false));
    assert!(!is_version_dir(&name("prox"), true));
    assert!(!is_version_dir(&None, true));
    assert!(is_stale(&name("proxy-v1"), true, false));
    assert!(!is_stale(&name("proxy-v1"), true, true));
    assert!(!is_stale(&name("elan-v1"), true, false));
}

#[test]
fn the_proxy_gets_its_server_from_the_editor() {
    let (program, args) = language_server_command(s("/lake"), s("/proxy"));
    assert_eq!(program, "/proxy");
    assert_eq!(args, vec!["--lsp", "/lake"]);
    let mut all = vec![program];
    all.extend(args);
    assert_eq!(server_argument(&all), Some(s("/lake")));
    assert_eq!(server_argument(&vec![s("p"), s("--lsp")]), None);
    assert_eq!(server_argument(&vec![]), None);
    assert_eq!(
        server_argument(&vec![s("p"), s("--lsp"), s("a"), s("--lsp"), s("b")]),
        Some(s("a"))
    );
}

#[test]
fn settings_are_any_document() {
    let mut q = linux("{}");
    q.settings = Some(Json::text("x"));
    assert!(matches!(
        find_lean4_lsp(&q, ServerEvent::HomeSearched(s("/x"), false)),
        ServerStep::Failed(_)
    ));
    q.settings = None;
    assert!(matches!(
        find_lean4_lsp(&q, ServerEvent::HomeSearched(s("/x"), false)),
        ServerStep::Failed(_)
    ));
}
