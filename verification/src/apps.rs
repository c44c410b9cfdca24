//! Per-application addressing: the tag that names each component and the
//! socket / configuration paths derived from it.

use vstd::prelude::*;

verus! {

use vstd::string::StringExecFns;

/// Identifier of a component application. Its stringification forms the
/// socket filename (`/tmp/<name>.sock`) and the per-app configuration
/// filename under the configuration root.
#[derive(Clone, Debug, PartialEq)]
pub enum App {
    Scan,
    IndexService,
    Other(String),
}

/// The name an [`App`] tag stringifies to.
pub open spec fn app_name(a: App) -> Seq<char> {
    match a {
        App::Scan => "Scan"@,
        App::IndexService => "IndexService"@,
        App::Other(s) => s@,
    }
}

/// The filesystem-socket path an [`App`] is served on.
pub open spec fn spec_socket_path(a: App) -> Seq<char> {
    "/tmp/"@ + app_name(a) + ".sock"@
}

impl App {
    /// The tag's name, used for socket and configuration filenames.
    pub fn name(&self) -> (r: String)
        ensures
            r@ == app_name(*self),
    {
        match self {
            App::Scan => String::from_str("Scan"),
            App::IndexService => String::from_str("IndexService"),
            App::Other(s) => s.clone(),
        }
    }

    /// The well-known per-app socket path under the host temporary directory.
    pub fn socket_path(&self) -> (r: String)
        ensures
            r@ == spec_socket_path(*self),
    {
        let mut r = String::from_str("/tmp/");
        let name = self.name();
        r.append(name.as_str());
        r.append(".sock");
        r
    }
}

/// Configuration root directory: `<home>/.config/.finick`.
pub open spec fn spec_config_root(home: Seq<char>) -> Seq<char> {
    home + "/.config/.finick"@
}

/// Builds the per-user configuration root path from the home directory.
pub fn config_root_path(home: &str) -> (r: String)
    ensures
        r@ == spec_config_root(home@),
{
    let mut r = String::from_str(home);
    r.append("/.config/.finick");
    r
}

/// Path of an app's configuration document under the configuration root.
pub fn config_file_path(home: &str, app: &App) -> (r: String)
    ensures
        r@ == spec_config_root(home@) + "/"@ + app_name(*app),
{
    let mut r = config_root_path(home);
    r.append("/");
    let name = app.name();
    r.append(name.as_str());
    r
}

/// Path under which a resolved 64x64 icon is cached:
/// `<config-root>/icons/<key>.png`.
pub fn icon_cache_path(config_root: &str, key: &str) -> (r: String)
    ensures
        r@ == config_root@ + "/icons/"@ + key@ + ".png"@,
{
    let mut r = String::from_str(config_root);
    r.append("/icons/");
    r.append(key);
    r.append(".png");
    r
}

/// Configuration document of the launcher window process.
#[derive(Clone, Debug, PartialEq)]
pub struct ScanConfig {
    pub port: u16,
}

impl Default for ScanConfig {
    /// The default launcher configuration.
    fn default() -> (r: Self)
        ensures
            r.port == 3051,
    {
        ScanConfig { port: 3051 }
    }
}

} // verus!
