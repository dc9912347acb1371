use dcg::vcs::{
    Change, ChangeContent, CommitObject, Config, DcgError, DiffType, Languages, ObjStatus, User,
    diff_type_of, from_hex, get_fname, get_virtual_parent, hash_to_commit_path, index_true_file,
    join_path, object_hash, status_of, to_hex, u64_to_dec,
};

#[test]
fn hex_round_trip() {
    let bytes = vec![0u8, 1, 15, 16, 171, 255];
    let hex = to_hex(&bytes);
    assert_eq!(hex, b"00010f10abff".to_vec());
    assert_eq!(from_hex(&hex).unwrap(), bytes);
}

#[test]
fn hex_rejects_odd_and_stray() {
    assert!(from_hex(b"abc").is_err());
    assert!(from_hex(b"zz").is_err());
    assert!(from_hex(b"AB").is_ok());
}

#[test]
fn object_hash_of_empty_is_sha256() {
    // With an empty name the object hash is the plain digest.
    let h = object_hash(b"", b"");
    assert_eq!(
        to_hex(&h),
        b"e3b0c44298fc1c149afbf4c8996fb92427ae41e4649b934ca495991b7852b855".to_vec()
    );
}

#[test]
fn object_hash_mixes_name() {
    let a = object_hash(b"same contents", b"one");
    let b = object_hash(b"same contents", b"two");
    assert_ne!(a, b);
}

#[test]
fn commit_hash_needs_author() {
    let commit = CommitObject::new(
        User { name: None, email: Some(b"a@b".to_vec()) },
        b"msg".to_vec(),
        Vec::new(),
        0,
    );
    assert!(matches!(commit.hash(), Err(DcgError::NoAuthor)));
}

#[test]
fn commit_hash_is_stable() {
    let mk = |date: u64| {
        CommitObject::new(
            User { name: Some(b"ada".to_vec()), email: Some(b"ada@example".to_vec()) },
            b"msg".to_vec(),
            Vec::new(),
            date,
        )
    };
    let h0 = mk(77).hash().unwrap();
    let h1 = mk(77).hash().unwrap();
    let h2 = mk(78).hash().unwrap();
    assert_eq!(h0, h1);
    assert_ne!(h0, h2);
    assert_eq!(h0.len(), 32);
}

#[test]
fn decimal_digits() {
    assert_eq!(u64_to_dec(0), b"0".to_vec());
    assert_eq!(u64_to_dec(1234567890), b"1234567890".to_vec());
}

#[test]
fn difftype_codec_round_trip() {
    let cases = vec![
        DiffType::Binary,
        DiffType::FromBinary(Languages::Rust),
        DiffType::Tree(Languages::Python),
        DiffType::Linear(Languages::PlainText, Languages::Rust),
    ];
    for dt in cases {
        let bytes = dt.serialise();
        let (back, used) = DiffType::deserialise(&bytes).unwrap();
        assert_eq!(dt, back);
        assert_eq!(used, bytes.len());
    }
    assert!(DiffType::deserialise(&[7u8]).is_err());
    assert!(DiffType::deserialise(&[2u8, 99u8]).is_err());
}

#[test]
fn diff_type_selection() {
    assert_eq!(
        diff_type_of(Languages::Rust, Languages::Binary),
        DiffType::Binary
    );
    assert_eq!(
        diff_type_of(Languages::Binary, Languages::Rust),
        DiffType::FromBinary(Languages::Rust)
    );
    assert_eq!(
        diff_type_of(Languages::Rust, Languages::Rust),
        DiffType::Tree(Languages::Rust)
    );
    assert_eq!(
        diff_type_of(Languages::PlainText, Languages::PlainText),
        DiffType::Linear(Languages::PlainText, Languages::PlainText)
    );
    assert_eq!(
        diff_type_of(Languages::Rust, Languages::Python),
        DiffType::Linear(Languages::Rust, Languages::Python)
    );
}

#[test]
fn change_entry_bytes() {
    let change = Change {
        content: ChangeContent::Deletion,
        file: Vec::new(),
        path: b"src/main.rs".to_vec(),
    };
    let bytes = change.serialise_entry();
    assert_eq!(bytes[0], b'd');
    assert_eq!(bytes[1..9], 11u64.to_le_bytes());
    assert_eq!(&bytes[9..], b"src/main.rs");

    let add = Change {
        content: ChangeContent::Addition(vec![7u8; 32]),
        file: Vec::new(),
        path: b"a".to_vec(),
    };
    let abytes = add.serialise_entry();
    assert_eq!(abytes[0], b'a');
    assert_eq!(abytes[1..33], [7u8; 32]);
}

#[test]
fn commit_path_layout() {
    let h = vec![0xabu8; 32];
    let p = hash_to_commit_path(&h);
    assert_eq!(p[0..2].to_vec(), b"ab".to_vec());
    assert_eq!(p[2], b'/');
    assert_eq!(p.len(), 2 + 1 + 62 + 1);
    assert_eq!(*p.last().unwrap(), b'/');
}

#[test]
fn fname_and_join() {
    assert_eq!(get_fname(b"a/b/c.rs"), b"c.rs".to_vec());
    assert_eq!(get_fname(b"c.rs"), b"c.rs".to_vec());
    assert_eq!(get_fname(b"a/b/"), b"".to_vec());
    assert_eq!(join_path(b"a", b"b"), b"a/b".to_vec());
    assert_eq!(join_path(b"a/", b"b"), b"a/b".to_vec());
    assert_eq!(join_path(b"", b"b"), b"b".to_vec());
    assert_eq!(
        get_virtual_parent(b"wd", b"dir/file.rs"),
        b"wd/.dcg/index/dir/".to_vec()
    );
}

#[test]
fn index_file_names() {
    assert!(index_true_file(b"main.rs"));
    assert!(!index_true_file(b"00010f10abff"));
}

#[test]
fn config_merge_prefers_other() {
    let a = Config {
        user: Some(User { name: Some(b"a".to_vec()), email: None }),
        init: Some(b"master".to_vec()),
        editor: None,
    };
    let b = Config {
        user: None,
        init: Some(b"main".to_vec()),
        editor: Some(b"vi".to_vec()),
    };
    let m = a.clone().merge(b);
    assert_eq!(m.user, a.user);
    assert_eq!(m.init, Some(b"main".to_vec()));
    assert_eq!(m.editor, Some(b"vi".to_vec()));
}

#[test]
fn read_usize_advances() {
    let mut v = Vec::new();
    v.extend_from_slice(&42u64.to_le_bytes());
    v.extend_from_slice(&7u64.to_le_bytes());
    let mut i = 0usize;
    assert_eq!(dcg::serde::read_usize(&mut i, &v), 42);
    assert_eq!(i, 8);
    assert_eq!(dcg::serde::read_usize(&mut i, &v), 7);
    assert_eq!(i, 16);
}

#[test]
fn kind_bias_round_trip() {
    assert_eq!(dcg::serde::u16_to_nt(0), None);
    assert_eq!(dcg::serde::u16_to_nt(1), Some(0));
    assert_eq!(dcg::serde::u16_to_nt(65535), Some(65534));
}

#[test]
fn do_diff_linear_bytes_decode() {
    let out = dcg::vcs::do_diff_linear(&b"a\nb".to_vec(), &b"a\nc".to_vec());
    let script = dcg::linear::deserialise(&out).unwrap();
    let left_lines = dcg::linear::split_lines(b"a\nb\n");
    let patched = dcg::linear::patch(&left_lines, &script).unwrap();
    assert_eq!(patched, dcg::linear::split_lines(b"a\nc\n"));
}

#[test]
fn change_entry_round_trip() {
    let change = Change {
        content: ChangeContent::Modification(
            DiffType::Tree(Languages::Rust),
            vec![5u8; 32],
            b"diff payload lives elsewhere".to_vec(),
        ),
        file: b"stored file bytes live elsewhere".to_vec(),
        path: b"src/lib.rs".to_vec(),
    };
    let bytes = change.serialise_entry();
    let (back, used) = Change::deserialise_entry(&bytes).unwrap();
    assert_eq!(used, bytes.len());
    assert_eq!(back.path, change.path);
    assert!(back.file.is_empty());
    match back.content {
        ChangeContent::Modification(dt, h, d) => {
            assert_eq!(dt, DiffType::Tree(Languages::Rust));
            assert_eq!(h, vec![5u8; 32]);
            assert!(d.is_empty());
        },
        _ => panic!("wrong change kind"),
    }
    assert!(Change::deserialise_entry(b"x").is_err());
}

#[test]
fn variable_replacement() {
    let vars = vec![
        (b"HOME".to_vec(), b"/home/ada".to_vec()),
        (b"PWD".to_vec(), b"/work".to_vec()),
    ];
    assert_eq!(
        dcg::vcs::replace_variables(b"$HOME$/.config", &vars),
        b"/home/ada/.config".to_vec()
    );
    assert_eq!(
        dcg::vcs::replace_variables(b"$PWD$/.dcg/$UNKNOWN$.toml", &vars),
        b"/work/.dcg/.toml".to_vec()
    );
    assert_eq!(dcg::vcs::replace_variables(b"plain", &vars), b"plain".to_vec());
    // an unclosed name still counts as a name
    assert_eq!(dcg::vcs::replace_variables(b"x/$PWD", &vars), b"x//work".to_vec());
}

#[test]
fn status_classification() {
    let index = vec![
        (b"kept.rs".to_vec(), b"h1".to_vec()),
        (b"mod.rs".to_vec(), b"h2new".to_vec()),
        (b"new.rs".to_vec(), b"h3".to_vec()),
    ];
    let last = vec![
        (b"gone.rs".to_vec(), b"h0".to_vec()),
        (b"kept.rs".to_vec(), b"h1".to_vec()),
        (b"mod.rs".to_vec(), b"h2".to_vec()),
    ];
    let st = status_of(&index, &last);
    assert_eq!(
        st,
        vec![
            (b"kept.rs".to_vec(), ObjStatus::Kept),
            (b"mod.rs".to_vec(), ObjStatus::Modified),
            (b"new.rs".to_vec(), ObjStatus::Added),
            (b"gone.rs".to_vec(), ObjStatus::Deleted),
        ]
    );
}
