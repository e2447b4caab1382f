use lport::update::{
    install_end, install_start, read_cache, refresh_script, script_for, update_cache_path,
    update_notice, update_repo, version_gt, wants_update, CachePath, InstallOutcome,
    UPDATE_CACHE_TTL_SECS,
};

#[test]
fn versions_compare_by_number() {
    assert!(version_gt("0.10.0", "0.9.0"));
    assert!(!version_gt("0.9.0", "0.10.0"));
    assert!(version_gt("1.0", "0.99.99"));
    assert!(version_gt("1.0.1", "1.0"));
    assert!(!version_gt("1.0", "1.0"));
    assert!(version_gt(" v2.0\n", "1.9"));
    assert!(version_gt("vv2", "v1"));
}

#[test]
fn prereleases_do_not_count() {
    assert!(!version_gt("1.2.3-rc.1", "1.2.3"));
    assert!(!version_gt("1.2.3", "1.2.3-rc.1"));
    assert!(version_gt("1.2.4-rc.1", "1.2.3"));
}

#[test]
fn odd_versions_count_as_zero() {
    assert!(!version_gt("x", "0"));
    assert!(!version_gt("", "0"));
    assert!(version_gt("1.x.9", "1.0.8"));
    assert!(version_gt("1", "99999999999"));
}

#[test]
fn newer_is_an_order() {
    let vs = ["", "0.9", "0.9.1", "0.10", "v0.10", "1", "1-rc", "1.0", "1.0.0", "2"];
    for a in vs {
        assert!(!version_gt(a, a));
        for b in vs {
            assert!(!(version_gt(a, b) && version_gt(b, a)));
            for c in vs {
                if version_gt(a, b) && version_gt(b, c) {
                    assert!(version_gt(a, c));
                }
            }
        }
    }
}

#[test]
fn a_cache_is_fresh_for_a_day() {
    let at = |now: u64| read_cache(Some("1000\n0.1.0\n"), Some(now), "0.1.0").fresh;
    assert!(at(1000));
    assert!(at(1000 + UPDATE_CACHE_TTL_SECS - 1));
    assert!(!at(1000 + UPDATE_CACHE_TTL_SECS));
    assert!(!at(999));
    assert!(!read_cache(Some("1000\n0.1.0\n"), None, "0.1.0").fresh);
    assert!(!read_cache(None, Some(1000), "0.1.0").fresh);
    assert!(!read_cache(Some("x\n"), Some(1000), "0.1.0").fresh);
    assert_eq!(UPDATE_CACHE_TTL_SECS, 86400);
}

#[test]
fn a_cache_tells_of_newer_versions_only() {
    let latest = |cache: &str, current: &str| read_cache(Some(cache), Some(0), current).latest;
    assert_eq!(latest("1000\n 0.2.0 \n", "0.1.9"), Some("0.2.0".to_string()));
    assert_eq!(latest("1000\n0.2.0\n", "0.2.0"), None);
    assert_eq!(latest("1000\n0.1.0\n", "0.2.0"), None);
    assert_eq!(latest("1000\n\n0.9.0\n", "0.2.0"), None);
    assert_eq!(latest("1000", "0.2.0"), None);
    assert_eq!(latest("junk\r\n0.3.0\r\n", "0.2.0"), Some("0.3.0".to_string()));
    assert_eq!(read_cache(None, Some(0), "0.1.0").latest, None);
}

#[test]
fn the_notice_asks_only_on_terminals() {
    let n = update_notice("0.1.0", "0.2.0", true, true, true);
    assert!(n.asks);
    assert_eq!(
        n.text,
        "\n\x1b[33m●\x1b[0m  update available: lport 0.1.0 → 0.2.0   install now? \x1b[1m[y/N]\x1b[0m "
    );
    let n = update_notice("0.1.0", "0.2.0", true, false, true);
    assert!(!n.asks);
    assert_eq!(
        n.text,
        "\n\x1b[33m●\x1b[0m  update available: lport 0.1.0 → 0.2.0\n   install: cargo install --git https://github.com/Bae-ChangHyun/lport --force\n"
    );
    let n = update_notice("0.1.0", "0.2.0", true, true, false);
    assert!(!n.asks);
    assert!(n.text.starts_with("\n*  update available: lport 0.1.0 → 0.2.0\n"));
    assert_eq!(update_repo(), "https://github.com/Bae-ChangHyun/lport");
}

#[test]
fn the_update_needs_a_yes() {
    for a in ["y", "Y", "yes", "YES", "yEs", " y\n"] {
        assert!(wants_update(a), "{:?}", a);
    }
    for a in ["", "\n", "n", "yes!", "ye"] {
        assert!(!wants_update(a), "{:?}", a);
    }
}

#[test]
fn the_installation_reports_its_end() {
    assert_eq!(
        install_start(),
        "\n==> cargo install --git https://github.com/Bae-ChangHyun/lport --force\n"
    );
    assert_eq!(
        install_end(&InstallOutcome::Updated),
        "==> lport updated. Re-run to use the new version.\n"
    );
    assert_eq!(
        install_end(&InstallOutcome::Failed { code: Some(101) }),
        "==> cargo install exited with status 101.\n"
    );
    assert_eq!(
        install_end(&InstallOutcome::Failed { code: None }),
        "==> cargo install exited with status ?.\n"
    );
    assert_eq!(
        install_end(&InstallOutcome::NotSpawned { message: "not found".to_string() }),
        "==> failed to spawn cargo: not found.\n    is the Rust toolchain installed and on PATH?\n"
    );
}

#[test]
fn the_cache_lies_below_xdg_or_home() {
    let place = |x: Option<&[u8]>, h: Option<&[u8]>| {
        update_cache_path(x, h).map(|p| {
            (String::from_utf8(p.dir).unwrap(), String::from_utf8(p.file).unwrap())
        })
    };
    assert_eq!(
        place(Some(b"/c"), Some(b"/home/me")),
        Some(("/c/lport".to_string(), "/c/lport/update-check".to_string()))
    );
    assert_eq!(
        place(None, Some(b"/home/me")),
        Some(("/home/me/.cache/lport".to_string(), "/home/me/.cache/lport/update-check".to_string()))
    );
    assert_eq!(
        place(Some(b"/c/"), None),
        Some(("/c/lport".to_string(), "/c/lport/update-check".to_string()))
    );
    assert_eq!(
        place(Some(b""), None),
        Some(("lport".to_string(), "lport/update-check".to_string()))
    );
    assert_eq!(place(None, None), None);
}

#[test]
fn the_cache_path_joins_like_the_standard_library() {
    for base in ["/c", "/c/", "", "/", "a", "a//"] {
        let p = update_cache_path(Some(base.as_bytes()), None).unwrap();
        let expected = std::path::PathBuf::from(base).join("lport").join("update-check");
        assert_eq!(p.file, expected.to_str().unwrap().as_bytes(), "{:?}", base);
        assert_eq!(p.dir, expected.parent().unwrap().to_str().unwrap().as_bytes(), "{:?}", base);
    }
}

#[test]
fn the_refresh_script_quotes_its_paths() {
    assert_eq!(
        script_for("/c/it's", "/c/it's/update-check"),
        "v=$(curl -fsSL --max-time 5 https://raw.githubusercontent.com/Bae-ChangHyun/lport/main/Cargo.toml 2>/dev/null | awk -F'\"' '/^version[[:space:]]*=/ {print $2; exit}'); if [ -n \"$v\" ]; then mkdir -p '/c/it'\\''s' && printf '%s\\n%s\\n' \"$(date +%s)\" \"$v\" > '/c/it'\\''s/update-check'; fi"
    );
    let path = CachePath { dir: vec![0x61, 0xff], file: b"b".to_vec() };
    assert_eq!(refresh_script(&path), script_for("a\u{fffd}", "b"));
}
