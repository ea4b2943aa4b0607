use clipx::paths::{
    is_invalid, normalized_collision_key, path_collision_key, path_display, portable_component,
    portable_relative_path, push_safe_component, safe_component, safe_relative_path, PathError,
    RelativePath,
};

fn relative(components: &[&[u8]]) -> RelativePath {
    RelativePath {
        components: components.iter().map(|c| c.to_vec()).collect(),
    }
}

#[test]
fn mod_relative_path_rejects_traversal() {
    assert!(safe_relative_path(b"../secret.txt").is_err());
    assert_eq!(
        safe_relative_path(b"folder\\document.txt").unwrap(),
        relative(&[b"folder", b"document.txt"])
    );
}

#[test]
fn portable_names() {
    let cases: [(&[u8], &[u8]); 16] = [
        (b"report.pdf", b"report.pdf"),
        (b"a<b>c:d\"e/f\\g|h?i*j", b"a_b_c_d_e_f_g_h_i_j"),
        (b"tab\there\x1f", b"tab_here_"),
        (b"trailing. . .", b"trailing"),
        (b"...", b"_"),
        (b"", b"_"),
        (b" ", b"_"),
        (b"con", b"con_"),
        (b"CoN.txt", b"CoN_.txt"),
        (b"nul.tar.gz", b"nul_.tar.gz"),
        (b"com1", b"com1_"),
        (b"LPT9.x", b"LPT9_.x"),
        (b"com0", b"com0"),
        (b"com10", b"com10"),
        (b"lpt", b"lpt"),
        (b"\x80\xffname", b"\x80\xffname"),
    ];
    for (name, expected) in cases {
        assert_eq!(portable_component(name), expected);
        assert_eq!(portable_component(expected), expected);
    }
}

#[test]
fn wire_paths_read_back() {
    let path = relative(&[b"docs", b"con.txt", b"a?b."]);
    let wire = portable_relative_path(&path).unwrap();
    assert_eq!(wire, b"docs/con_.txt/a_b");
    assert_eq!(
        safe_relative_path(&wire).unwrap(),
        relative(&[b"docs", b"con_.txt", b"a_b"])
    );
}

#[test]
fn paths_that_lead_out_or_nowhere_are_refused() {
    for path in [
        &b""[..],
        b"/a",
        b"a/",
        b"a//b",
        b".",
        b"a/./b",
        b"a\\..\\b",
        b"..",
    ] {
        assert_eq!(
            safe_relative_path(path),
            Err(PathError::InvalidComponent)
        );
    }
    assert_eq!(
        portable_relative_path(&relative(&[b"a", b".."])),
        Err(PathError::InvalidComponent)
    );
    assert_eq!(portable_relative_path(&relative(&[])), Err(PathError::Empty));
    assert!(is_invalid(b".."));
    assert!(!is_invalid(b"..."));
    assert_eq!(
        safe_relative_path(b"...").unwrap(),
        relative(&[b"_"])
    );
}

#[test]
fn components_are_pushed_in_their_portable_form() {
    let mut component = b"aux".to_vec();
    let mut path = relative(&[b"a"]);
    assert_eq!(push_safe_component(&mut component, &mut path), Ok(()));
    assert_eq!(component, b"");
    assert_eq!(path, relative(&[b"a", b"aux_"]));
    assert_eq!(
        push_safe_component(&mut component, &mut path),
        Err(PathError::InvalidComponent)
    );
    assert_eq!(path, relative(&[b"a", b"aux_"]));
    assert_eq!(path.join(b"x").components.len(), 3);
    assert_eq!(path.copy(), path);
}

#[test]
fn names_collide_whatever_their_case_or_slashes() {
    assert_eq!(path_collision_key(b"Docs\\ReadMe"), b"docs/readme");
    assert_eq!(
        path_collision_key("ÀÉ\\Σ".as_bytes()),
        "ÀÉ/Σ".to_lowercase().into_bytes()
    );
    assert_eq!(
        path_collision_key("İ".as_bytes()),
        "İ".to_lowercase().into_bytes()
    );
    assert_eq!(path_collision_key(b"A\xffB\\Z\xc9"), b"a\xffb/z\xc9");
    assert_eq!(
        path_collision_key("Ä\\b".as_bytes()),
        path_collision_key("Ä/b".as_bytes())
    );
    assert_eq!(
        normalized_collision_key(&relative(&[b"Foo", b"CON"])).unwrap(),
        b"foo/con_"
    );
    assert_eq!(
        normalized_collision_key(&relative(&[])),
        Err(PathError::Empty)
    );
    assert_eq!(
        normalized_collision_key(&relative(&[b"."])),
        Err(PathError::InvalidComponent)
    );
}

#[test]
fn paths_are_shown_as_text() {
    assert_eq!(path_display("目录/a".as_bytes()), "目录/a");
    assert_eq!(path_display(b"a\xffb"), "a\u{fffd}b");
}

#[test]
fn safe_components_hold_plain_characters() {
    assert_eq!(safe_component("aZ09-_"), "aZ09-_");
    assert_eq!(safe_component("a b/é.目"), "a_b____");
}

#[test]
fn collision_keys_ignore_ascii_case() {
    assert_eq!(path_collision_key(b"Folder\\A.TXT"), b"folder/a.txt");
    for (a, b) in [
        (&b"Folder/A.TXT"[..], &b"fOLDER\\a.txt"[..]),
        ("É.TXT".as_bytes(), "É.txt".as_bytes()),
        ("ΟΔΟΣA".as_bytes(), "ΟΔΟΣa".as_bytes()),
        (b"\xffA\\", b"\xffa/"),
    ] {
        assert_eq!(path_collision_key(a), path_collision_key(b));
    }
    for path in [&b"Folder\\A.TXT"[..], b"\xffA\\"] {
        let key = path_collision_key(path);
        assert_eq!(key.len(), path.len());
        assert_eq!(path_collision_key(&key), key);
    }
}
