use htmlua_parser::config::Config;

#[test]
fn default_config_has_the_documented_values() {
    let config = Config::default();
    assert_eq!(config.paths.pages, "/var/www/htmlua/pages");
    assert_eq!(config.paths.components, "/var/www/htmlua/components");
    assert_eq!(config.paths.themes, "/var/www/htmlua/themes");
    assert_eq!(config.server.host, "127.0.0.1");
    assert_eq!(config.server.port, 8080);
    assert_eq!(config.syntax_highlighting.default_theme, "base16-ocean.dark");
    assert!(config.syntax_highlighting.load_custom_themes);
}

#[test]
fn config_file_is_under_etc() {
    assert_eq!(Config::config_file_path(), "/etc/htmlua.toml");
}
