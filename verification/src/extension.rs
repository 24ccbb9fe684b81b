//! Finds the two programs that the editor has to start: the Lean server and the proxy in front of
//! it. Each search goes step by step; the host carries a step out and reports what came of it.
use crate::json::{ref_view, str_in, str_view, text_view, Json, JsonView};
use crate::snoop::opt_str;
use crate::text::{appended, chars_of, names_view, same_text, starts_with};
use vstd::prelude::*;
use vstd::string::StringExecFns;

verus! {

// ---------------------------------------------------------------------------------------------
// The host
// ---------------------------------------------------------------------------------------------
#[derive(Clone, Copy, Debug, PartialEq, Eq, Structural)]
pub enum Os {
    Windows,
    Mac,
    Linux,
}

#[derive(Clone, Copy, Debug, PartialEq, Eq, Structural)]
pub enum Arch {
    Aarch64,
    X8664,
    X86,
}

/// How a download is packed.
#[derive(Clone, Copy, Debug, PartialEq, Eq, Structural)]
pub enum Packing {
    Zip,
    GzipTar,
    Uncompressed,
}

/// A file of a release.
#[derive(Clone, Debug, PartialEq, Eq)]
pub struct Asset {
    pub name: String,
    pub download_url: String,
}

/// A release of a program.
#[derive(Clone, Debug, PartialEq, Eq)]
pub struct Release {
    pub version: String,
    pub assets: Vec<Asset>,
}

/// A path: a directory, and the names that lead on from it.
#[derive(Clone, Debug, PartialEq, Eq)]
pub struct PathParts {
    pub base: String,
    pub names: Vec<String>,
}

/// The name of an architecture that is supported.
pub open spec fn arch_name(arch: Arch) -> Option<Seq<char>> {
    match arch {
        Arch::Aarch64 => Some("aarch64"@),
        Arch::X8664 => Some("x86_64"@),
        Arch::X86 => None,
    }
}

/// The name of an operating system in the names of releases.
pub open spec fn os_name(os: Os) -> Seq<char> {
    match os {
        Os::Windows => "pc-windows-msvc"@,
        Os::Mac => "apple-darwin"@,
        Os::Linux => "unknown-linux-gnu"@,
    }
}

/// The first asset, from a given one on, with a given name.
pub open spec fn asset_from(assets: Seq<Asset>, name: Seq<char>, k: int) -> Option<Seq<char>>
    decreases assets.len() - k,
{
    if k < 0 || k >= assets.len() {
        None
    } else if assets[k].name@ == name {
        Some(assets[k].download_url@)
    } else {
        asset_from(assets, name, k + 1)
    }
}

/// Where the first asset with a given name can be had.
pub open spec fn asset_url(assets: Seq<Asset>, name: Seq<char>) -> Option<Seq<char>> {
    asset_from(assets, name, 0)
}

fn arch_text(arch: Arch) -> (r: Option<&'static str>)
    ensures
        str_view(r) == arch_name(arch),
{
    match arch {
        Arch::Aarch64 => Some("aarch64"),
        Arch::X8664 => Some("x86_64"),
        Arch::X86 => None,
    }
}

fn os_text(os: Os) -> (r: &'static str)
    ensures
        r@ == os_name(os),
{
    match os {
        Os::Windows => "pc-windows-msvc",
        Os::Mac => "apple-darwin",
        Os::Linux => "unknown-linux-gnu",
    }
}

fn find_asset(assets: &Vec<Asset>, name: &str) -> (r: Option<String>)
    ensures
        text_view(r) == asset_url(assets@, name@),
{
    let mut k: usize = 0;
    while k < assets.len()
        invariant
            k <= assets.len(),
            asset_url(assets@, name@) == asset_from(assets@, name@, k as int),
        decreases assets.len() - k,
    {
        if same_text(assets[k].name.as_str(), name) {
            return Some(assets[k].download_url.clone());
        }
        k += 1;
    }
    None
}

/// The value of the first variable, from a given one on, with one of two names.
pub open spec fn variable_from(
    env: Seq<(String, String)>,
    a: Seq<char>,
    b: Seq<char>,
    k: int,
) -> Option<Seq<char>>
    decreases env.len() - k,
{
    if k < 0 || k >= env.len() {
        None
    } else if env[k].0@ == a || env[k].0@ == b {
        Some(env[k].1@)
    } else {
        variable_from(env, a, b, k + 1)
    }
}

fn find_variable(env: &Vec<(String, String)>, a: &str, b: &str) -> (r: Option<String>)
    ensures
        text_view(r) == variable_from(env@, a@, b@, 0),
{
    let mut k: usize = 0;
    while k < env.len()
        invariant
            k <= env.len(),
            variable_from(env@, a@, b@, 0) == variable_from(env@, a@, b@, k as int),
        decreases env.len() - k,
    {
        if same_text(env[k].0.as_str(), a) || same_text(env[k].0.as_str(), b) {
            return Some(env[k].1.clone());
        }
        k += 1;
    }
    None
}

/// What a path says.
pub struct PathView {
    pub base: Seq<char>,
    pub names: Seq<Seq<char>>,
}

impl PathParts {
    pub open spec fn view(&self) -> PathView {
        PathView { base: self.base@, names: names_view(self.names@) }
    }
}

// ---------------------------------------------------------------------------------------------
// The Lean server
// ---------------------------------------------------------------------------------------------
/// What is known before the search for the server.
#[derive(Debug)]
pub struct ServerQuery {
    /// The path that the settings give.
    pub binary_path: Option<String>,
    pub settings: Option<Json>,
    pub env: Vec<(String, String)>,
    pub os: Os,
    pub arch: Arch,
}

/// What came of a step of the search for the server.
#[derive(Debug)]
pub enum ServerEvent {
    Start,
    /// What the search path led to.
    PathSearched(Option<String>),
    /// The path in the toolchain manager's directory, and whether a program is there.
    HomeSearched(String, bool),
    ReleaseFetched(Result<Release, String>),
    /// The path of the installer that was run, or where it went wrong and how.
    Installed(Result<String, (ServerStage, String)>),
}

/// A stage of the installation of the server.
#[derive(Clone, Copy, Debug, PartialEq, Eq, Structural)]
pub enum ServerStage {
    Download,
    CurrentDir,
    MakeExecutable,
    Run,
}

/// What to download and run to install the server.
#[derive(Debug)]
pub struct ServerInstall {
    pub download_url: String,
    pub version_dir: String,
    pub packing: Packing,
    pub installer: String,
    pub args: Vec<String>,
}

/// What to do next to find the server.
#[derive(Debug)]
pub enum ServerStep {
    /// Look for a program on the search path.
    SearchPath(String),
    /// Look for a program at a path.
    SearchAt(PathParts),
    /// Fetch the latest release of a repository.
    FetchRelease(String),
    Install(ServerInstall),
    Found(String),
    Failed(String),
}

/// What an installation says.
pub struct InstallView {
    pub download_url: Seq<char>,
    pub version_dir: Seq<char>,
    pub packing: Packing,
    pub installer: Seq<char>,
    pub args: Seq<Seq<char>>,
}

/// What to do next to find the server.
pub enum ServerStepView {
    SearchPath(Seq<char>),
    SearchAt(PathView),
    FetchRelease(Seq<char>),
    Install(InstallView),
    Found(Seq<char>),
    Failed(Seq<char>),
}

impl ServerStep {
    pub open spec fn view(&self) -> ServerStepView {
        match self {
            ServerStep::SearchPath(s) => ServerStepView::SearchPath(s@),
            ServerStep::SearchAt(p) => ServerStepView::SearchAt(p@),
            ServerStep::FetchRelease(s) => ServerStepView::FetchRelease(s@),
            ServerStep::Install(i) => ServerStepView::Install(
                InstallView {
                    download_url: i.download_url@,
                    version_dir: i.version_dir@,
                    packing: i.packing,
                    installer: i.installer@,
                    args: names_view(i.args@),
                },
            ),
            ServerStep::Found(s) => ServerStepView::Found(s@),
            ServerStep::Failed(s) => ServerStepView::Failed(s@),
        }
    }
}

/// A setting.
pub open spec fn setting(q: ServerQuery, key: Seq<char>) -> Option<JsonView> {
    match q.settings {
        Some(s) => s@.get(key),
        None => None,
    }
}

/// The name of the server's program.
pub open spec fn lake_name(os: Os) -> Seq<char> {
    match os {
        Os::Windows => "lake.exe"@,
        Os::Mac => "lake"@,
        Os::Linux => "lake"@,
    }
}

/// Where the toolchain manager keeps the server's program: in its own directory, or in one under
/// the user's.
pub open spec fn lake_path(q: ServerQuery) -> Option<PathView> {
    match variable_from(q.env@, "ELAN_HOME"@, "ELAN_HOME"@, 0) {
        Some(home) => Some(PathView { base: home, names: seq!["bin"@, lake_name(q.os)] }),
        None => match variable_from(q.env@, "HOME"@, "USERPROFILE"@, 0) {
            Some(home) => Some(
                PathView { base: home, names: seq![".elan"@, "bin"@, lake_name(q.os)] },
            ),
            None => None,
        },
    }
}

/// The name of the toolchain manager's asset.
pub open spec fn elan_asset(os: Os, arch: Seq<char>) -> Seq<char> {
    "elan-"@ + arch + "-"@ + os_name(os) + match os {
        Os::Windows => ".zip"@,
        Os::Mac => ".tar.gz"@,
        Os::Linux => ".tar.gz"@,
    }
}

/// The toolchain that is installed.
pub open spec fn toolchain(q: ServerQuery) -> Seq<char> {
    match str_in(setting(q, "elan_default_toolchain"@)) {
        Some(t) => t,
        None => "stable"@,
    }
}

/// How to install the server from a release of the toolchain manager.
pub open spec fn install_step(q: ServerQuery, release: Release) -> ServerStepView {
    match arch_name(q.arch) {
        None => ServerStepView::Failed("32-bit x86 architecture is not supported by elan"@),
        Some(arch) => match asset_url(release.assets@, elan_asset(q.os, arch)) {
            None => ServerStepView::Failed(
                "No asset found matching: \""@ + elan_asset(q.os, arch) + "\""@,
            ),
            Some(url) => ServerStepView::Install(
                InstallView {
                    download_url: url,
                    version_dir: "elan-"@ + release.version@,
                    packing: match q.os {
                        Os::Windows => Packing::Zip,
                        Os::Mac => Packing::GzipTar,
                        Os::Linux => Packing::GzipTar,
                    },
                    installer: match q.os {
                        Os::Windows => "elan-init.exe"@,
                        Os::Mac => "elan-init"@,
                        Os::Linux => "elan-init"@,
                    },
                    args: seq![
                        "-y"@,
                        "--default-toolchain"@,
                        "leanprover/lean4:"@ + toolchain(q),
                    ],
                },
            ),
        },
    }
}

/// How a stage of the installation of the server reports an error.
pub open spec fn server_error(stage: ServerStage, e: Seq<char>) -> Seq<char> {
    match stage {
        ServerStage::Download => "Failed to download file: "@ + e,
        ServerStage::CurrentDir => "Failed to get current directory: "@ + e,
        ServerStage::MakeExecutable => e,
        ServerStage::Run => e,
    }
}

/// What to do next to find the server: the path that the settings give, the search path, the
/// toolchain manager's directory, and at last the toolchain manager's installer, if the settings
/// allow it.
pub open spec fn server_step(q: ServerQuery, event: ServerEvent) -> ServerStepView {
    match event {
        ServerEvent::Start => match q.binary_path {
            Some(path) => ServerStepView::Found(path@),
            None => ServerStepView::SearchPath("lake"@),
        },
        ServerEvent::PathSearched(found) => match found {
            Some(path) => ServerStepView::Found(path@),
            None => match lake_path(q) {
                Some(path) => ServerStepView::SearchAt(path),
                None => ServerStepView::Failed("Failed to find ELAN_HOME, HOME, or USERPROFILE"@),
            },
        },
        ServerEvent::HomeSearched(path, found) => if found {
            ServerStepView::Found(path@)
        } else if setting(q, "elan_auto_install"@) == Some(JsonView::Bool(true)) {
            ServerStepView::FetchRelease("leanprover/elan"@)
        } else {
            ServerStepView::Failed(
                "Failed to find lake in PATH or ELAN_HOME/default path. Enable lsp.lean4-lsp.settings.elan_auto_install or configure lsp.lean4-lsp.binary.path."@,
            )
        },
        ServerEvent::ReleaseFetched(Err(e)) => ServerStepView::Failed(e@),
        ServerEvent::ReleaseFetched(Ok(release)) => install_step(q, release),
        ServerEvent::Installed(Ok(path)) => ServerStepView::Found(path@),
        ServerEvent::Installed(Err((stage, e))) => ServerStepView::Failed(server_error(stage, e@)),
    }
}

fn read_setting<'a>(q: &'a ServerQuery, key: &str) -> (r: Option<&'a Json>)
    ensures
        ref_view(r) == setting(*q, key@),
{
    match &q.settings {
        Some(s) => s.get(key),
        None => None,
    }
}

fn lake_text(os: Os) -> (r: String)
    ensures
        r@ == lake_name(os),
{
    match os {
        Os::Windows => "lake.exe".to_string(),
        Os::Mac => "lake".to_string(),
        Os::Linux => "lake".to_string(),
    }
}

fn find_lake_path(q: &ServerQuery) -> (r: Option<PathParts>)
    ensures
        match r {
            Some(p) => lake_path(*q) == Some(p@),
            None => lake_path(*q) is None,
        },
{
    let mut names: Vec<String> = Vec::new();
    if let Some(base) = find_variable(&q.env, "ELAN_HOME", "ELAN_HOME") {
        names.push("bin".to_string());
        names.push(lake_text(q.os));
        assert(names_view(names@) =~= seq!["bin"@, lake_name(q.os)]);
        return Some(PathParts { base, names });
    }
    if let Some(base) = find_variable(&q.env, "HOME", "USERPROFILE") {
        names.push(".elan".to_string());
        names.push("bin".to_string());
        names.push(lake_text(q.os));
        assert(names_view(names@) =~= seq![".elan"@, "bin"@, lake_name(q.os)]);
        return Some(PathParts { base, names });
    }
    None
}

fn elan_asset_name(os: Os, arch: &str) -> (r: String)
    ensures
        r@ == elan_asset(os, arch@),
{
    let mut out = "elan-".to_string();
    out.append(arch);
    out.append("-");
    out.append(os_text(os));
    match os {
        Os::Windows => out.append(".zip"),
        Os::Mac => out.append(".tar.gz"),
        Os::Linux => out.append(".tar.gz"),
    }
    out
}

fn plan_install(q: &ServerQuery, release: &Release) -> (r: ServerStep)
    ensures
        r@ == install_step(*q, *release),
{
    let arch = match arch_text(q.arch) {
        Some(arch) => arch,
        None => {
            return ServerStep::Failed(
                "32-bit x86 architecture is not supported by elan".to_string(),
            );
        },
    };
    let name = elan_asset_name(q.os, arch);
    let download_url = match find_asset(&release.assets, name.as_str()) {
        Some(url) => url,
        None => {
            let mut message = "No asset found matching: \"".to_string();
            message.append(name.as_str());
            message.append("\"");
            return ServerStep::Failed(message);
        },
    };
    let toolchain = match opt_str(read_setting(q, "elan_default_toolchain")) {
        Some(t) => t,
        None => "stable",
    };
    let mut args: Vec<String> = Vec::new();
    args.push("-y".to_string());
    args.push("--default-toolchain".to_string());
    args.push(appended("leanprover/lean4:", toolchain));
    assert(names_view(args@) =~= seq![
        "-y"@,
        "--default-toolchain"@,
        "leanprover/lean4:"@ + toolchain@,
    ]);
    let (packing, installer) = match q.os {
        Os::Windows => (Packing::Zip, "elan-init.exe".to_string()),
        Os::Mac => (Packing::GzipTar, "elan-init".to_string()),
        Os::Linux => (Packing::GzipTar, "elan-init".to_string()),
    };
    ServerStep::Install(
        ServerInstall {
            download_url,
            version_dir: appended("elan-", release.version.as_str()),
            packing,
            installer,
            args,
        },
    )
}

/// What to do next to find the server.
pub fn find_lean4_lsp(q: &ServerQuery, event: ServerEvent) -> (r: ServerStep)
    ensures
        r@ == server_step(*q, event),
{
    match event {
        ServerEvent::Start => match &q.binary_path {
            Some(path) => ServerStep::Found(path.clone()),
            None => ServerStep::SearchPath("lake".to_string()),
        },
        ServerEvent::PathSearched(Some(path)) => ServerStep::Found(path),
        ServerEvent::PathSearched(None) => match find_lake_path(q) {
            Some(path) => ServerStep::SearchAt(path),
            None => ServerStep::Failed(
                "Failed to find ELAN_HOME, HOME, or USERPROFILE".to_string(),
            ),
        },
        ServerEvent::HomeSearched(path, found) => {
            if found {
                return ServerStep::Found(path);
            }
            let allowed = match read_setting(q, "elan_auto_install") {
                Some(v) => match v.as_bool() {
                    Some(b) => b,
                    None => false,
                },
                None => false,
            };
            if allowed {
                ServerStep::FetchRelease("leanprover/elan".to_string())
            } else {
                ServerStep::Failed(
                    "Failed to find lake in PATH or ELAN_HOME/default path. Enable lsp.lean4-lsp.settings.elan_auto_install or configure lsp.lean4-lsp.binary.path.".to_string(),
                )
            }
        },
        ServerEvent::ReleaseFetched(Err(e)) => ServerStep::Failed(e),
        ServerEvent::ReleaseFetched(Ok(release)) => plan_install(q, &release),
        ServerEvent::Installed(Ok(path)) => ServerStep::Found(path),
        ServerEvent::Installed(Err((stage, e))) => ServerStep::Failed(
            match stage {
                ServerStage::Download => appended("Failed to download file: ", e.as_str()),
                ServerStage::CurrentDir => appended(
                    "Failed to get current directory: ",
                    e.as_str(),
                ),
                ServerStage::MakeExecutable => e,
                ServerStage::Run => e,
            },
        ),
    }
}

// ---------------------------------------------------------------------------------------------
// The proxy
// ---------------------------------------------------------------------------------------------
/// What is known before the search for the proxy.
#[derive(Debug)]
pub struct ProxyQuery {
    pub settings: Option<Json>,
    pub os: Os,
    pub arch: Arch,
}

/// An entry of the directory that the proxies are kept in.
#[derive(Debug)]
pub struct CacheEntry {
    /// The name, if it is a text.
    pub name: Option<String>,
    pub is_dir: bool,
    /// The path of the proxy in it, if there is one.
    pub binary: Option<String>,
    /// When it was changed, if that can be told.
    pub modified: Option<u128>,
}

/// A stage of the installation of the proxy.
#[derive(Clone, Copy, Debug, PartialEq, Eq, Structural)]
pub enum ProxyStage {
    CreateDir,
    Download,
    MakeExecutable,
}

/// What came of a step of the search for the proxy.
#[derive(Debug)]
pub enum ProxyEvent {
    Start,
    /// Whether the current directory can be told.
    DirFound(Result<(), String>),
    ReleaseFetched(Result<Release, String>),
    /// Why there is no release, and what the directory holds.
    CacheListed(String, Vec<CacheEntry>),
    /// The release, the path of the proxy of its version, and whether it is there.
    Looked(Release, String, bool),
    /// The path of the proxy, or where the installation went wrong and how.
    Installed(Result<String, (ProxyStage, String)>),
}

/// What to do next to find the proxy.
#[derive(Debug)]
pub enum ProxyStep {
    FindDir,
    /// Fetch the latest release of a repository.
    FetchRelease(String),
    /// List the directory, with a program's name, after a release could not be had.
    ListCache(String, String),
    /// Look for a program in the directory of a version.
    Look { release: Release, version_dir: String, binary: String },
    /// Download the program from an address.
    Download(String),
    /// Remove the other versions: this one is ready.
    CleanUp(String),
    Found(String),
    Failed(String),
}

/// What to do next to find the proxy.
pub enum ProxyStepView {
    FindDir,
    FetchRelease(Seq<char>),
    ListCache(Seq<char>, Seq<char>),
    Look(Release, Seq<char>, Seq<char>),
    Download(Seq<char>),
    CleanUp(Seq<char>),
    Found(Seq<char>),
    Failed(Seq<char>),
}

impl ProxyStep {
    pub open spec fn view(&self) -> ProxyStepView {
        match self {
            ProxyStep::FindDir => ProxyStepView::FindDir,
            ProxyStep::FetchRelease(s) => ProxyStepView::FetchRelease(s@),
            ProxyStep::ListCache(b, e) => ProxyStepView::ListCache(b@, e@),
            ProxyStep::Look { release, version_dir, binary } => ProxyStepView::Look(
                *release,
                version_dir@,
                binary@,
            ),
            ProxyStep::Download(s) => ProxyStepView::Download(s@),
            ProxyStep::CleanUp(s) => ProxyStepView::CleanUp(s@),
            ProxyStep::Found(s) => ProxyStepView::Found(s@),
            ProxyStep::Failed(s) => ProxyStepView::Failed(s@),
        }
    }
}

/// The path of the proxy that the settings give; an empty one is none.
pub open spec fn proxy_setting(q: ProxyQuery) -> Option<Seq<char>> {
    match q.settings {
        Some(s) => match str_in(s@.get("proxy_path"@)) {
            Some(p) => if p.len() > 0 {
                Some(p)
            } else {
                None
            },
            None => None,
        },
        None => None,
    }
}

/// What the names of programs end with.
pub open spec fn exe_suffix(os: Os) -> Seq<char> {
    match os {
        Os::Windows => ".exe"@,
        Os::Mac => ""@,
        Os::Linux => ""@,
    }
}

/// The name of the proxy's asset.
pub open spec fn proxy_asset(os: Os, arch: Seq<char>) -> Seq<char> {
    "leander-proxy-"@ + arch + "-"@ + os_name(os) + exe_suffix(os)
}

/// The name of the proxy's program.
pub open spec fn proxy_binary(os: Os) -> Seq<char> {
    "leander-proxy"@ + exe_suffix(os)
}

/// What the directories of the proxy's versions start with.
pub const PROXY_DIR_PREFIX: &'static str = "proxy-";

/// Whether a name is that of a directory of a version of the proxy.
pub open spec fn is_proxy_dir(name: Option<String>, is_dir: bool) -> bool {
    is_dir && match name {
        Some(n) => PROXY_DIR_PREFIX@.is_prefix_of(n@),
        None => false,
    }
}

/// Whether an entry holds a proxy that can be used.
pub open spec fn usable(e: CacheEntry) -> bool {
    is_proxy_dir(e.name, e.is_dir) && e.binary is Some && e.modified is Some
}

/// The usable entry among the first ones that was changed last; of several the last one.
pub open spec fn latest(entries: Seq<CacheEntry>) -> Option<CacheEntry>
    decreases entries.len(),
{
    if entries.len() == 0 {
        None
    } else {
        let front = latest(entries.drop_last());
        let e = entries.last();
        if !usable(e) {
            front
        } else {
            match front {
                Some(f) => if f.modified->0 <= e.modified->0 {
                    Some(e)
                } else {
                    Some(f)
                },
                None => Some(e),
            }
        }
    }
}

/// How a stage of the installation of the proxy reports an error.
pub open spec fn proxy_error(stage: ProxyStage, e: Seq<char>) -> Seq<char> {
    match stage {
        ProxyStage::CreateDir => "Failed to create proxy dir: "@ + e,
        ProxyStage::Download => "Failed to download proxy: "@ + e,
        ProxyStage::MakeExecutable => e,
    }
}

/// What to do next to find the proxy: the path that the settings give, the version of the latest
/// release, downloaded if it is not there yet, or, where no release can be had, the version that
/// was changed last.
pub open spec fn proxy_step(q: ProxyQuery, event: ProxyEvent) -> ProxyStepView {
    match event {
        ProxyEvent::Start => match proxy_setting(q) {
            Some(path) => ProxyStepView::Found(path),
            None => if arch_name(q.arch) is None {
                ProxyStepView::Failed("32-bit x86 architecture is not supported"@)
            } else {
                ProxyStepView::FindDir
            },
        },
        ProxyEvent::DirFound(Ok(_)) => ProxyStepView::FetchRelease("SrGaabriel/leander"@),
        ProxyEvent::DirFound(Err(e)) => ProxyStepView::Failed(
            "Failed to get current directory: "@ + e@,
        ),
        ProxyEvent::ReleaseFetched(Err(e)) => ProxyStepView::ListCache(proxy_binary(q.os), e@),
        ProxyEvent::ReleaseFetched(Ok(release)) => ProxyStepView::Look(
            release,
            PROXY_DIR_PREFIX@ + release.version@,
            proxy_binary(q.os),
        ),
        ProxyEvent::CacheListed(e, entries) => match latest(entries@) {
            Some(entry) => ProxyStepView::Found(entry.binary->0@),
            None => ProxyStepView::Failed("Failed to fetch latest leander release ("@ + e@ + ")"@),
        },
        ProxyEvent::Looked(release, path, found) => if found {
            ProxyStepView::Found(path@)
        } else {
            match arch_name(q.arch) {
                Some(arch) => match asset_url(release.assets@, proxy_asset(q.os, arch)) {
                    Some(url) => ProxyStepView::Download(url),
                    None => ProxyStepView::Failed(
                        "leander release "@ + release.version@ + " has no asset named "@
                            + proxy_asset(q.os, arch),
                    ),
                },
                None => ProxyStepView::Failed("32-bit x86 architecture is not supported"@),
            }
        },
        ProxyEvent::Installed(Ok(path)) => ProxyStepView::CleanUp(path@),
        ProxyEvent::Installed(Err((stage, e))) => ProxyStepView::Failed(proxy_error(stage, e@)),
    }
}

fn suffix_text(os: Os) -> (r: &'static str)
    ensures
        r@ == exe_suffix(os),
{
    match os {
        Os::Windows => ".exe",
        Os::Mac => "",
        Os::Linux => "",
    }
}

fn binary_name(os: Os) -> (r: String)
    ensures
        r@ == proxy_binary(os),
{
    appended("leander-proxy", suffix_text(os))
}

fn proxy_asset_name(os: Os, arch: &str) -> (r: String)
    ensures
        r@ == proxy_asset(os, arch@),
{
    let mut out = "leander-proxy-".to_string();
    out.append(arch);
    out.append("-");
    out.append(os_text(os));
    out.append(suffix_text(os));
    out
}

/// Whether a name is that of a directory of a version of the proxy.
pub fn is_version_dir(name: &Option<String>, is_dir: bool) -> (r: bool)
    ensures
        r == is_proxy_dir(*name, is_dir),
{
    match name {
        Some(n) => is_dir && starts_with(chars_of(n.as_str()).as_slice(), PROXY_DIR_PREFIX),
        None => false,
    }
}

/// Whether an entry of the directory goes when a version of the proxy is ready: it is the directory
/// of another version.
pub fn is_stale(name: &Option<String>, is_dir: bool, is_current: bool) -> (r: bool)
    ensures
        r == (!is_current && is_proxy_dir(*name, is_dir)),
{
    !is_current && is_version_dir(name, is_dir)
}

/// The proxy that was changed last.
pub fn find_latest_cached_proxy(entries: &Vec<CacheEntry>) -> (r: Option<String>)
    ensures
        match r {
            Some(path) => latest(entries@) is Some && latest(entries@)->0.binary is Some && latest(
                entries@,
            )->0.binary->0@ == path@,
            None => latest(entries@) is None,
        },
{
    let mut best: Option<usize> = None;
    let mut i: usize = 0;
    assert(entries@.take(0) =~= Seq::empty());
    while i < entries.len()
        invariant
            i <= entries.len(),
            match best {
                Some(k) => k < i && latest(entries@.take(i as int)) == Some(entries@[k as int])
                    && usable(entries@[k as int]),
                None => latest(entries@.take(i as int)) is None,
            },
        decreases entries.len() - i,
    {
        assert(entries@.take(i as int + 1).drop_last() =~= entries@.take(i as int));
        let e = &entries[i];
        if is_version_dir(&e.name, e.is_dir) && e.binary.is_some() {
            if let Some(m) = e.modified {
                let newer = match best {
                    Some(k) => match entries[k].modified {
                        Some(b) => b <= m,
                        None => true,
                    },
                    None => true,
                };
                if newer {
                    best = Some(i);
                }
            }
        }
        i += 1;
    }
    assert(entries@.take(i as int) =~= entries@);
    match best {
        Some(k) => match &entries[k].binary {
            Some(path) => Some(path.clone()),
            None => None,
        },
        None => None,
    }
}

fn read_proxy_path(q: &ProxyQuery) -> (r: Option<String>)
    ensures
        text_view(r) == proxy_setting(*q),
{
    match &q.settings {
        Some(s) => match opt_str(s.get("proxy_path")) {
            Some(p) => if chars_of(p).len() > 0 {
                Some(p.to_string())
            } else {
                None
            },
            None => None,
        },
        None => None,
    }
}

fn after_look(q: &ProxyQuery, release: &Release, path: String, found: bool) -> (r: ProxyStep)
    ensures
        r@ == proxy_step(*q, ProxyEvent::Looked(*release, path, found)),
{
    if found {
        return ProxyStep::Found(path);
    }
    let arch = match arch_text(q.arch) {
        Some(arch) => arch,
        None => {
            return ProxyStep::Failed("32-bit x86 architecture is not supported".to_string());
        },
    };
    let asset = proxy_asset_name(q.os, arch);
    match find_asset(&release.assets, asset.as_str()) {
        Some(url) => ProxyStep::Download(url),
        None => {
            let mut message = "leander release ".to_string();
            message.append(release.version.as_str());
            message.append(" has no asset named ");
            message.append(asset.as_str());
            ProxyStep::Failed(message)
        },
    }
}

/// What to do next to find the proxy.
pub fn find_or_download_proxy(q: &ProxyQuery, event: ProxyEvent) -> (r: ProxyStep)
    ensures
        r@ == proxy_step(*q, event),
{
    match event {
        ProxyEvent::Start => match read_proxy_path(q) {
            Some(path) => ProxyStep::Found(path),
            None => if arch_text(q.arch).is_none() {
                ProxyStep::Failed("32-bit x86 architecture is not supported".to_string())
            } else {
                ProxyStep::FindDir
            },
        },
        ProxyEvent::DirFound(Ok(_)) => ProxyStep::FetchRelease("SrGaabriel/leander".to_string()),
        ProxyEvent::DirFound(Err(e)) => ProxyStep::Failed(
            appended("Failed to get current directory: ", e.as_str()),
        ),
        ProxyEvent::ReleaseFetched(Err(e)) => ProxyStep::ListCache(binary_name(q.os), e),
        ProxyEvent::ReleaseFetched(Ok(release)) => {
            let version_dir = appended(PROXY_DIR_PREFIX, release.version.as_str());
            ProxyStep::Look { release, version_dir, binary: binary_name(q.os) }
        },
        ProxyEvent::CacheListed(e, entries) => match find_latest_cached_proxy(&entries) {
            Some(path) => ProxyStep::Found(path),
            None => {
                let mut message = "Failed to fetch latest leander release (".to_string();
                message.append(e.as_str());
                message.append(")");
                ProxyStep::Failed(message)
            },
        },
        ProxyEvent::Looked(release, path, found) => after_look(q, &release, path, found),
        ProxyEvent::Installed(Ok(path)) => ProxyStep::CleanUp(path),
        ProxyEvent::Installed(Err((stage, e))) => ProxyStep::Failed(
            match stage {
                ProxyStage::CreateDir => appended("Failed to create proxy dir: ", e.as_str()),
                ProxyStage::Download => appended("Failed to download proxy: ", e.as_str()),
                ProxyStage::MakeExecutable => e,
            },
        ),
    }
}

/// How the editor starts the proxy: the program, and the arguments that lead it to the server.
pub fn language_server_command(server_path: String, proxy_path: String) -> (r: (
    String,
    Vec<String>,
))
    ensures
        r.0@ == proxy_path@,
        names_view(r.1@) == seq!["--lsp"@, server_path@],
{
    let mut args: Vec<String> = Vec::new();
    args.push("--lsp".to_string());
    args.push(server_path);
    assert(names_view(args@) =~= seq!["--lsp"@, server_path@]);
    (proxy_path, args)
}

/// The argument behind a flag, which leads to the server.
pub open spec fn lsp_argument(args: Seq<String>, k: int) -> Option<Seq<char>>
    decreases args.len() - k,
{
    if k < 0 || k + 1 >= args.len() {
        None
    } else if args[k]@ == "--lsp"@ {
        Some(args[k + 1]@)
    } else {
        lsp_argument(args, k + 1)
    }
}

/// The path of the server among the proxy's arguments: the one behind the first flag for it.
pub fn server_argument(args: &Vec<String>) -> (r: Option<String>)
    ensures
        text_view(r) == lsp_argument(args@, 0),
{
    let mut k: usize = 0;
    while args.len() >= 2 && k < args.len() - 1
        invariant
            k <= args.len(),
            lsp_argument(args@, 0) == lsp_argument(args@, k as int),
        decreases args.len() - k,
    {
        if same_text(args[k].as_str(), "--lsp") {
            return Some(args[k + 1].clone());
        }
        k += 1;
    }
    None
}

/// The proxy finds among its arguments the server that the editor was told to pass.
pub proof fn law_arguments_reach_the_proxy(
    program: String,
    args: Seq<String>,
    server_path: Seq<char>,
)
    requires
        program@ != "--lsp"@,
        names_view(args) == seq!["--lsp"@, server_path],
    ensures
        lsp_argument(seq![program] + args, 0) == Some(server_path),
{
    let all = seq![program] + args;
    assert(args.len() == names_view(args).len());
    assert(names_view(args)[0] == args[0]@);
    assert(names_view(args)[1] == args[1]@);
    assert(all[1] == args[0] && all[2] == args[1]);
    assert(lsp_argument(all, 0) == lsp_argument(all, 1));
}

/// A path that the settings give is taken as it is, whatever the host is.
pub proof fn law_settings_come_first(q: ProxyQuery, s: ServerQuery)
    requires
        proxy_setting(q) is Some,
        s.binary_path is Some,
    ensures
        proxy_step(q, ProxyEvent::Start) == ProxyStepView::Found(proxy_setting(q)->0),
        server_step(s, ServerEvent::Start) == ServerStepView::Found(s.binary_path->0@),
{
}

/// No version of the proxy that could be used was changed after the one that is taken.
pub proof fn law_latest_is_newest(entries: Seq<CacheEntry>, i: int)
    requires
        0 <= i < entries.len(),
        usable(entries[i]),
    ensures
        latest(entries) is Some,
        usable(latest(entries)->0),
        entries[i].modified->0 <= latest(entries)->0.modified->0,
    decreases entries.len(),
{
    let front = entries.drop_last();
    if i < front.len() {
        assert(front[i] == entries[i]);
        law_latest_is_newest(front, i);
    } else {
        lemma_latest_usable(front);
    }
}

proof fn lemma_latest_usable(entries: Seq<CacheEntry>)
    ensures
        latest(entries) is Some ==> usable(latest(entries)->0),
    decreases entries.len(),
{
    if entries.len() > 0 {
        lemma_latest_usable(entries.drop_last());
    }
}

/// The asset that is taken is the first with the right name, and there is none only if no asset has
/// it.
pub proof fn law_first_asset_is_taken(assets: Seq<Asset>, name: Seq<char>, i: int)
    ensures
        0 <= i < assets.len() && assets[i].name@ == name && (forall|j: int|
            0 <= j < i ==> (#[trigger] assets[j]).name@ != name) ==> asset_url(assets, name)
            == Some(assets[i].download_url@),
        (forall|j: int| 0 <= j < assets.len() ==> (#[trigger] assets[j]).name@ != name)
            ==> asset_url(assets, name) is None,
{
    lemma_asset_from(assets, name, 0, i);
}

proof fn lemma_asset_from(assets: Seq<Asset>, name: Seq<char>, k: int, i: int)
    requires
        0 <= k,
    ensures
        k <= i < assets.len() && assets[i].name@ == name && (forall|j: int|
            k <= j < i ==> (#[trigger] assets[j]).name@ != name) ==> asset_from(assets, name, k)
            == Some(assets[i].download_url@),
        (forall|j: int| k <= j < assets.len() ==> (#[trigger] assets[j]).name@ != name)
            ==> asset_from(assets, name, k) is None,
    decreases assets.len() - k,
{
    if k < assets.len() {
        lemma_asset_from(assets, name, k + 1, i);
        assert(assets[k].name@ == name || assets[k].name@ != name);
    }
}

/// The variable that is taken is the first with one of the two names, and there is none only if no
/// variable has one of them.
pub proof fn law_first_variable_is_taken(
    env: Seq<(String, String)>,
    a: Seq<char>,
    b: Seq<char>,
    k: int,
    i: int,
)
    requires
        0 <= k,
    ensures
        k <= i < env.len() && (env[i].0@ == a || env[i].0@ == b) && (forall|j: int|
            k <= j < i ==> (#[trigger] env[j]).0@ != a && env[j].0@ != b) ==> variable_from(
            env,
            a,
            b,
            k,
        ) == Some(env[i].1@),
        (forall|j: int| k <= j < env.len() ==> (#[trigger] env[j]).0@ != a && env[j].0@ != b)
            ==> variable_from(env, a, b, k) is None,
    decreases env.len() - k,
{
    if k < env.len() {
        law_first_variable_is_taken(env, a, b, k + 1, i);
        assert(env[k].0@ == a || env[k].0@ != a);
    }
}

/// The server is looked for where `ELAN_HOME` leads, or else under the user's directory, as `HOME`
/// or `USERPROFILE` gives it, whichever comes first.
pub proof fn law_where_the_server_is_looked_for(q: ServerQuery, i: int)
    ensures
        ({
            let lake = if q.os == Os::Windows {
                "lake.exe"@
            } else {
                "lake"@
            };
            let step = server_step(q, ServerEvent::PathSearched(None));
            let no_elan = forall|j: int|
                0 <= j < q.env@.len() ==> (#[trigger] q.env@[j]).0@ != "ELAN_HOME"@;
            let is_home = |j: int| q.env@[j].0@ == "HOME"@ || q.env@[j].0@ == "USERPROFILE"@;
            &&& 0 <= i < q.env@.len() && q.env@[i].0@ == "ELAN_HOME"@ && (forall|j: int|
                0 <= j < i ==> (#[trigger] q.env@[j]).0@ != "ELAN_HOME"@) ==> step
                == ServerStepView::SearchAt(
                PathView { base: q.env@[i].1@, names: seq!["bin"@, lake] },
            )
            &&& no_elan && 0 <= i < q.env@.len() && is_home(i) && (forall|j: int|
                0 <= j < i ==> !#[trigger] is_home(j)) ==> step == ServerStepView::SearchAt(
                PathView { base: q.env@[i].1@, names: seq![".elan"@, "bin"@, lake] },
            )
            &&& no_elan && (forall|j: int| 0 <= j < q.env@.len() ==> !#[trigger] is_home(j)) ==> step
                == ServerStepView::Failed("Failed to find ELAN_HOME, HOME, or USERPROFILE"@)
        }),
{
    let is_home = |j: int| q.env@[j].0@ == "HOME"@ || q.env@[j].0@ == "USERPROFILE"@;
    law_first_variable_is_taken(q.env@, "ELAN_HOME"@, "ELAN_HOME"@, 0, i);
    law_first_variable_is_taken(q.env@, "HOME"@, "USERPROFILE"@, 0, i);
    assert forall|j: int| 0 <= j < q.env@.len() && !is_home(j) implies (#[trigger] q.env@[j]).0@
        != "HOME"@ && q.env@[j].0@ != "USERPROFILE"@ by {}
}

/// The order of the search for the server: the settings, the search path, the toolchain manager's
/// directory, and its installer, if the settings allow it with `true`.
pub proof fn law_the_order_of_the_search_for_the_server(
    q: ServerQuery,
    path: String,
    e: String,
    s: Json,
)
    ensures
        q.binary_path == Some(path) ==> server_step(q, ServerEvent::Start)
            == ServerStepView::Found(path@),
        q.binary_path is None ==> server_step(q, ServerEvent::Start)
            == ServerStepView::SearchPath("lake"@),
        server_step(q, ServerEvent::PathSearched(Some(path))) == ServerStepView::Found(path@),
        server_step(q, ServerEvent::HomeSearched(path, true)) == ServerStepView::Found(path@),
        q.settings == Some(s) && s@.get("elan_auto_install"@) == Some(JsonView::Bool(true))
            ==> server_step(q, ServerEvent::HomeSearched(path, false))
            == ServerStepView::FetchRelease("leanprover/elan"@),
        q.settings is None || q.settings == Some(s) && s@.get("elan_auto_install"@) != Some(
            JsonView::Bool(true),
        ) ==> server_step(q, ServerEvent::HomeSearched(path, false)) == ServerStepView::Failed(
            "Failed to find lake in PATH or ELAN_HOME/default path. Enable lsp.lean4-lsp.settings.elan_auto_install or configure lsp.lean4-lsp.binary.path."@,
        ),
        server_step(q, ServerEvent::ReleaseFetched(Err(e))) == ServerStepView::Failed(e@),
        server_step(q, ServerEvent::Installed(Ok(path))) == ServerStepView::Found(path@),
{
}

/// What is installed comes from the asset of the host's architecture and system, and the toolchain
/// is the one that the settings name, or the stable one.
pub proof fn law_what_is_installed(q: ServerQuery, release: Release, url: Seq<char>, s: Json)
    requires
        q.arch != Arch::X86,
    ensures
        ({
            let arch = if q.arch == Arch::Aarch64 {
                "aarch64"@
            } else {
                "x86_64"@
            };
            let name = if q.os == Os::Windows {
                "elan-"@ + arch + "-"@ + "pc-windows-msvc"@ + ".zip"@
            } else if q.os == Os::Mac {
                "elan-"@ + arch + "-"@ + "apple-darwin"@ + ".tar.gz"@
            } else {
                "elan-"@ + arch + "-"@ + "unknown-linux-gnu"@ + ".tar.gz"@
            };
            let step = server_step(q, ServerEvent::ReleaseFetched(Ok(release)));
            &&& asset_url(release.assets@, name) == Some(url) ==> {
                &&& step is Install
                &&& step->Install_0.download_url == url
                &&& step->Install_0.version_dir == "elan-"@ + release.version@
                &&& step->Install_0.packing == if q.os == Os::Windows {
                    Packing::Zip
                } else {
                    Packing::GzipTar
                }
                &&& step->Install_0.installer == if q.os == Os::Windows {
                    "elan-init.exe"@
                } else {
                    "elan-init"@
                }
                &&& step->Install_0.args.len() == 3
                &&& step->Install_0.args[0] == "-y"@
                &&& step->Install_0.args[1] == "--default-toolchain"@
                &&& q.settings is None ==> step->Install_0.args[2] == "leanprover/lean4:"@
                    + "stable"@
                &&& q.settings == Some(s) ==> match s@.get("elan_default_toolchain"@) {
                    Some(JsonView::Str(t)) => step->Install_0.args[2] == "leanprover/lean4:"@ + t,
                    _ => step->Install_0.args[2] == "leanprover/lean4:"@ + "stable"@,
                }
            }
            &&& asset_url(release.assets@, name) is None ==> step == ServerStepView::Failed(
                "No asset found matching: \""@ + name + "\""@,
            )
        }),
{
}

/// On a 32-bit host nothing is installed, neither the server nor the proxy.
pub proof fn law_small_hosts_are_not_supported(q: ServerQuery, p: ProxyQuery, release: Release)
    requires
        q.arch == Arch::X86,
        p.arch == Arch::X86,
    ensures
        server_step(q, ServerEvent::ReleaseFetched(Ok(release))) == ServerStepView::Failed(
            "32-bit x86 architecture is not supported by elan"@,
        ),
        p.settings is None ==> proxy_step(p, ProxyEvent::Start) == ProxyStepView::Failed(
            "32-bit x86 architecture is not supported"@,
        ),
{
}

/// The order of the search for the proxy: the settings, unless they give an empty path, the version
/// of the latest release, and, without a release, the versions that are there.
pub proof fn law_the_order_of_the_search_for_the_proxy(
    q: ProxyQuery,
    s: Json,
    given: Seq<char>,
    release: Release,
    path: String,
    e: String,
)
    requires
        q.arch != Arch::X86,
    ensures
        ({
            let binary = if q.os == Os::Windows {
                "leander-proxy"@ + ".exe"@
            } else {
                "leander-proxy"@ + ""@
            };
            &&& q.settings == Some(s) && s@.get("proxy_path"@) == Some(JsonView::Str(given))
                && given.len() > 0 ==> proxy_step(q, ProxyEvent::Start) == ProxyStepView::Found(
                given,
            )
            &&& q.settings == Some(s) && s@.get("proxy_path"@) == Some(JsonView::Str(Seq::empty()))
                ==> proxy_step(q, ProxyEvent::Start) == ProxyStepView::FindDir
            &&& q.settings == Some(s) && !(s@.get("proxy_path"@) matches Some(JsonView::Str(_)))
                ==> proxy_step(q, ProxyEvent::Start) == ProxyStepView::FindDir
            &&& q.settings is None ==> proxy_step(q, ProxyEvent::Start) == ProxyStepView::FindDir
            &&& proxy_step(q, ProxyEvent::DirFound(Ok(()))) == ProxyStepView::FetchRelease(
                "SrGaabriel/leander"@,
            )
            &&& proxy_step(q, ProxyEvent::ReleaseFetched(Ok(release))) == ProxyStepView::Look(
                release,
                "proxy-"@ + release.version@,
                binary,
            )
            &&& proxy_step(q, ProxyEvent::ReleaseFetched(Err(e))) == ProxyStepView::ListCache(
                binary,
                e@,
            )
            &&& proxy_step(q, ProxyEvent::Looked(release, path, true)) == ProxyStepView::Found(path@)
            &&& proxy_step(q, ProxyEvent::Installed(Ok(path))) == ProxyStepView::CleanUp(path@)
        }),
{
}

/// What is downloaded is the asset of the host's architecture and system.
pub proof fn law_which_proxy_is_downloaded(
    q: ProxyQuery,
    release: Release,
    path: String,
    url: Seq<char>,
)
    requires
        q.arch != Arch::X86,
    ensures
        ({
            let arch = if q.arch == Arch::Aarch64 {
                "aarch64"@
            } else {
                "x86_64"@
            };
            let name = if q.os == Os::Windows {
                "leander-proxy-"@ + arch + "-"@ + "pc-windows-msvc"@ + ".exe"@
            } else if q.os == Os::Mac {
                "leander-proxy-"@ + arch + "-"@ + "apple-darwin"@ + ""@
            } else {
                "leander-proxy-"@ + arch + "-"@ + "unknown-linux-gnu"@ + ""@
            };
            let step = proxy_step(q, ProxyEvent::Looked(release, path, false));
            &&& asset_url(release.assets@, name) == Some(url) ==> step == ProxyStepView::Download(
                url,
            )
            &&& asset_url(release.assets@, name) is None ==> step == ProxyStepView::Failed(
                "leander release "@ + release.version@ + " has no asset named "@ + name,
            )
        }),
{
}

/// A directory is that of a version of the proxy exactly if its name starts with `proxy-`; an entry
/// of another kind, or without a name, is not one.
pub proof fn law_version_directories_have_their_prefix(name: String, version: Seq<char>)
    ensures
        name@ == "proxy-"@ + version ==> is_proxy_dir(Some(name), true),
        is_proxy_dir(Some(name), true) ==> name@.len() >= 6 && name@.take(6) == "proxy-"@,
        !is_proxy_dir(Some(name), false),
        !is_proxy_dir(None, true),
{
    reveal_strlit("proxy-");
    let prefix = "proxy-"@;
    assert(PROXY_DIR_PREFIX@ == prefix);
    if name@ == prefix + version {
        assert(prefix =~= name@.subrange(0, 6));
    }
    if prefix.is_prefix_of(name@) {
        assert(prefix =~= name@.subrange(0, 6));
        assert(name@.take(6) =~= name@.subrange(0, 6));
    }
}

/// Where no release can be had, the proxy that is taken is one of the directory's, in a directory
/// of a version, with a program in it; of those changed last it is the last one. Without one, the
/// search fails and says why there is no release.
pub proof fn law_the_last_of_the_newest_is_taken(
    q: ProxyQuery,
    e: String,
    entries: Vec<CacheEntry>,
    i: int,
)
    ensures
        ({
            let fits = |j: int|
                entries@[j].is_dir && entries@[j].name is Some && "proxy-"@.is_prefix_of(
                    entries@[j].name->0@,
                ) && entries@[j].binary is Some && entries@[j].modified is Some;
            let step = proxy_step(q, ProxyEvent::CacheListed(e, entries));
            &&& 0 <= i < entries@.len() && fits(i) && (forall|j: int|
                0 <= j < i && #[trigger] fits(j) ==> entries@[j].modified->0
                    <= entries@[i].modified->0) && (forall|j: int|
                i < j < entries@.len() && #[trigger] fits(j) ==> entries@[j].modified->0
                    < entries@[i].modified->0) ==> step == ProxyStepView::Found(
                entries@[i].binary->0@,
            )
            &&& (forall|j: int| 0 <= j < entries@.len() ==> !#[trigger] fits(j)) ==> step
                == ProxyStepView::Failed("Failed to fetch latest leander release ("@ + e@ + ")"@)
        }),
{
    let s = entries@;
    let fits = |j: int|
        s[j].is_dir && s[j].name is Some && "proxy-"@.is_prefix_of(s[j].name->0@)
            && s[j].binary is Some && s[j].modified is Some;
    assert(PROXY_DIR_PREFIX@ == "proxy-"@);
    assert forall|j: int| 0 <= j < s.len() implies #[trigger] fits(j) == usable(s[j]) by {}
    if 0 <= i < s.len() && fits(i) && (forall|j: int|
        0 <= j < i && #[trigger] fits(j) ==> s[j].modified->0 <= s[i].modified->0) && (forall|j: int|
        i < j < s.len() && #[trigger] fits(j) ==> s[j].modified->0 < s[i].modified->0) {
        assert forall|j: int| 0 <= j < i && usable(#[trigger] s[j]) implies s[j].modified->0
            <= s[i].modified->0 by {
            assert(fits(j));
        }
        assert forall|j: int| i < j < s.len() && usable(#[trigger] s[j]) implies s[j].modified->0
            < s[i].modified->0 by {
            assert(fits(j));
        }
        lemma_latest_is(s, i);
    }
    if forall|j: int| 0 <= j < s.len() ==> !#[trigger] fits(j) {
        assert forall|j: int| 0 <= j < s.len() implies !usable(#[trigger] s[j]) by {
            assert(!fits(j));
        }
        lemma_latest_is_none(s);
    }
}

proof fn lemma_latest_is(s: Seq<CacheEntry>, i: int)
    requires
        0 <= i < s.len(),
        usable(s[i]),
        forall|j: int|
            0 <= j < i && usable(#[trigger] s[j]) ==> s[j].modified->0 <= s[i].modified->0,
        forall|j: int|
            i < j < s.len() && usable(#[trigger] s[j]) ==> s[j].modified->0 < s[i].modified->0,
    ensures
        latest(s) == Some(s[i]),
    decreases s.len(),
{
    let front = s.drop_last();
    if i < front.len() {
        assert forall|j: int| 0 <= j < front.len() implies front[j] == #[trigger] s[j] by {}
        lemma_latest_is(front, i);
    } else {
        lemma_latest_member(front);
        if latest(front) is Some {
            let j = choose|j: int| 0 <= j < front.len() && latest(front) == Some(#[trigger] front[j]);
            assert(front[j] == s[j]);
            lemma_latest_usable(front);
        }
    }
}

proof fn lemma_latest_member(s: Seq<CacheEntry>)
    ensures
        latest(s) is Some ==> exists|j: int| 0 <= j < s.len() && latest(s) == Some(#[trigger] s[j]),
    decreases s.len(),
{
    if s.len() > 0 {
        let front = s.drop_last();
        lemma_latest_member(front);
        if latest(s) is Some {
            if latest(s) == Some(s.last()) {
                assert(s[s.len() - 1] == s.last());
            } else {
                let j = choose|j: int|
                    0 <= j < front.len() && latest(front) == Some(#[trigger] front[j]);
                assert(front[j] == s[j]);
            }
        }
    }
}

proof fn lemma_latest_is_none(s: Seq<CacheEntry>)
    requires
        forall|j: int| 0 <= j < s.len() ==> !usable(#[trigger] s[j]),
    ensures
        latest(s) is None,
    decreases s.len(),
{
    if s.len() > 0 {
        let front = s.drop_last();
        assert forall|j: int| 0 <= j < front.len() implies !usable(#[trigger] front[j]) by {
            assert(front[j] == s[j]);
        }
        lemma_latest_is_none(front);
    }
}

/// The proxy's server is the argument behind the first flag for it that has one behind it.
pub proof fn law_first_flag_counts(args: Seq<String>, k: int, i: int)
    requires
        0 <= k,
    ensures
        k <= i < args.len() - 1 && args[i]@ == "--lsp"@ && (forall|j: int|
            k <= j < i ==> (#[trigger] args[j])@ != "--lsp"@) ==> lsp_argument(args, k) == Some(
            args[i + 1]@,
        ),
        (forall|j: int| k <= j < args.len() - 1 ==> (#[trigger] args[j])@ != "--lsp"@)
            ==> lsp_argument(args, k) is None,
    decreases args.len() - k,
{
    if k < args.len() {
        law_first_flag_counts(args, k + 1, i);
        assert(args[k]@ == "--lsp"@ || args[k]@ != "--lsp"@);
    }
}

/// Errors of the installations say at which stage they came.
pub proof fn law_errors_name_their_stage(q: ServerQuery, p: ProxyQuery, e: String)
    ensures
        server_step(q, ServerEvent::Installed(Err((ServerStage::Download, e))))
            == ServerStepView::Failed("Failed to download file: "@ + e@),
        server_step(q, ServerEvent::Installed(Err((ServerStage::CurrentDir, e))))
            == ServerStepView::Failed("Failed to get current directory: "@ + e@),
        server_step(q, ServerEvent::Installed(Err((ServerStage::MakeExecutable, e))))
            == ServerStepView::Failed(e@),
        server_step(q, ServerEvent::Installed(Err((ServerStage::Run, e))))
            == ServerStepView::Failed(e@),
        proxy_step(p, ProxyEvent::DirFound(Err(e))) == ProxyStepView::Failed(
            "Failed to get current directory: "@ + e@,
        ),
        proxy_step(p, ProxyEvent::Installed(Err((ProxyStage::CreateDir, e))))
            == ProxyStepView::Failed("Failed to create proxy dir: "@ + e@),
        proxy_step(p, ProxyEvent::Installed(Err((ProxyStage::Download, e))))
            == ProxyStepView::Failed("Failed to download proxy: "@ + e@),
        proxy_step(p, ProxyEvent::Installed(Err((ProxyStage::MakeExecutable, e))))
            == ProxyStepView::Failed(e@),
{
}

} // verus!
