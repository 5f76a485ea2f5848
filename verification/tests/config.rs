use envcache::config::Config;

#[test]
fn default_paths_in_home() {
    assert_eq!(Config::default_secrets_file(Some("/home/u")), "/home/u/.envcache.secrets");
    assert_eq!(Config::default_cache_file(Some("/home/u")), "/home/u/.envrc.cache");
    assert_eq!(Config::default_meta_file(Some("/home/u")), "/home/u/.envrc.cache.meta");
}

#[test]
fn default_paths_without_home() {
    assert_eq!(Config::default_secrets_file(None), "./.envcache.secrets");
    assert_eq!(Config::default_cache_file(None), "./.envrc.cache");
    assert_eq!(Config::default_meta_file(None), "./.envrc.cache.meta");
}
