//! The settings of a site.

use vstd::prelude::*;

verus! {

/// Where the site's files are found.
#[derive(Debug, Clone)]
pub struct PathConfig {
    /// The directory of the pages.
    pub pages: String,
    /// The directory of the components that pages take in.
    pub components: String,
    /// The directory of additional highlighting themes.
    pub themes: String,
}

/// Where the front end listens. The library itself does not read it.
#[derive(Debug, Clone)]
pub struct ServerConfig {
    pub host: String,
    pub port: u16,
}

/// How code is highlighted.
#[derive(Debug, Clone)]
pub struct SyntaxConfig {
    /// The theme of a region that names none.
    pub default_theme: String,
    /// Whether the themes directory is read.
    pub load_custom_themes: bool,
}

/// The settings of a site.
#[derive(Debug, Clone)]
pub struct Config {
    pub paths: PathConfig,
    pub server: ServerConfig,
    pub syntax_highlighting: SyntaxConfig,
}

impl Default for Config {
    fn default() -> (config: Config)
        ensures
            config.paths.pages@ == "/var/www/htmlua/pages"@,
            config.paths.components@ == "/var/www/htmlua/components"@,
            config.paths.themes@ == "/var/www/htmlua/themes"@,
            config.server.host@ == "127.0.0.1"@,
            config.server.port == 8080,
            config.syntax_highlighting.default_theme@ == "base16-ocean.dark"@,
            config.syntax_highlighting.load_custom_themes,
    {
        Config {
            paths: PathConfig {
                pages: "/var/www/htmlua/pages".to_owned(),
                components: "/var/www/htmlua/components".to_owned(),
                themes: "/var/www/htmlua/themes".to_owned(),
            },
            server: ServerConfig { host: "127.0.0.1".to_owned(), port: 8080 },
            syntax_highlighting: SyntaxConfig {
                default_theme: "base16-ocean.dark".to_owned(),
                load_custom_themes: true,
            },
        }
    }
}

impl Config {
    /// The file that holds the settings on a Unix system.
    pub fn config_file_path() -> (path: String)
        ensures
            path@ == "/etc/htmlua.toml"@,
    {
        "/etc/htmlua.toml".to_owned()
    }
}

} // verus!
