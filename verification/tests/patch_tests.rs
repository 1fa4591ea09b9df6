use git_patcher::patch::{
    format_patch_header, patch_file_name, read_patch, read_patch_diff, read_patch_metadata,
    PatchError,
};
use git_patcher::signature::{SignatureData, SignatureError};

const DIFF: &str = "diff --git a/x.txt b/x.txt\nindex 7898192..6178079 100644\n--- a/x.txt\n+++ b/x.txt\n@@ -1 +1 @@\n-a\n+b\n";
const C: &str = "0123456789abcdef0123456789abcdef01234567";
const P: &str = "89abcdef0123456789abcdef0123456789abcdef";

fn sig(name: &str, secs: i64, off: i32) -> SignatureData {
    SignatureData::new(name.to_string(), format!("{}@x.org", name), secs, off)
}

#[test]
fn header_layout() {
    let h = format_patch_header(C, P, &sig("ann", 10, 60), &sig("bob", -5, -90), "fix\n\nbody\n");
    assert_eq!(
        h,
        format!(
            "commit {C}\nparent {P}\nauthor ann <ann@x.org> 10 +0100\ncommitter bob <bob@x.org> -5 -0130\nmessage 10\nfix\n\nbody\n\n"
        )
    );
}

#[test]
fn written_patch_reads_back() {
    let mut text = format_patch_header(C, P, &sig("ann", 10, 60), &sig("bob", -5, -90), "fix\n");
    text.push_str(DIFF);
    let (_diff, meta) = read_patch(text.as_bytes()).unwrap();
    assert_eq!(meta.author.name, "ann");
    assert_eq!(meta.author.offset_minutes, 60);
    assert_eq!(meta.committer.email, "bob@x.org");
    assert_eq!(meta.committer.seconds, -5);
    assert_eq!(meta.commit_message, "fix\n");
    assert_eq!(meta.commit_hash, C);
    assert_eq!(meta.parent_hash, P);
}

#[test]
fn ids_read_in_canonical_form() {
    let text = format!(
        "commit ABC\nparent {P}\nauthor a <b> 1 +0000\ncommitter a <b> 1 +0000\nmessage 0\n\n{DIFF}"
    );
    let (_d, meta) = read_patch(text.as_bytes()).unwrap();
    assert_eq!(meta.commit_hash, "abc0000000000000000000000000000000000000");
    assert_eq!(meta.commit_message, "");
}

#[test]
fn header_errors() {
    let cases: Vec<(String, &str)> = vec![
        (format!("commit {C}\n{DIFF}"), "no"),
        (format!("commit xyz\nparent {P}\nauthor a <b> 1 +0000\ncommitter a <b> 1 +0000\nmessage 0\n\n{DIFF}"), "commit"),
        (format!("commit {C}\nparent zz\nauthor a <b> 1 +0000\ncommitter a <b> 1 +0000\nmessage 0\n\n{DIFF}"), "parent"),
        (format!("commit {C}\nparent {P}\nauthor nobody\ncommitter a <b> 1 +0000\nmessage 0\n\n{DIFF}"), "author"),
        (format!("commit {C}\nparent {P}\nauthor a <b> 1 +0000\ncommitter a <b> x +0000\nmessage 0\n\n{DIFF}"), "committer"),
        (format!("commit {C}\nparent {P}\nauthor a <b> 1 +0000\ncommitter a <b> 1 +0000\nmessage 3\nab\n{DIFF}"), "no"),
        (format!("commit {C}\nparent {P}\nauthor a <b> 1 +0000\ncommitter a <b> 1 +0000\nmessage 99999999999999999999999\nab\n{DIFF}"), "no"),
        (format!("commit {C}\nparent {P}\nauthor a <b> 1 +0000\ncommitter a <b> 1 +0000\nmessage \n\n{DIFF}"), "no"),
    ];
    for (text, want) in cases {
        let got = read_patch(text.as_bytes()).err().unwrap();
        match (want, got) {
            ("no", PatchError::NoMetadata) => {}
            ("commit", PatchError::CommitId(_)) => {}
            ("parent", PatchError::ParentId(_)) => {}
            ("author", PatchError::Author(SignatureError::Malformed)) => {}
            ("committer", PatchError::Committer(SignatureError::Malformed)) => {}
            (w, g) => panic!("{w}: {g:?} for {text:?}"),
        }
    }
}

#[test]
fn non_text_and_non_diff() {
    let mut bytes = format!("commit {C}\n").into_bytes();
    bytes.push(0xff);
    bytes.push(b'\n');
    bytes.extend_from_slice(DIFF.as_bytes());
    let r = read_patch(&bytes);
    assert!(matches!(r, Err(PatchError::NotText)), "{:?}", r.err());
    assert!(matches!(read_patch(b"diff --git a/x b/x\n@@ garbage"), Err(PatchError::Diff(_))));
}

#[test]
fn patch_names() {
    assert_eq!(patch_file_name(C, 0, 3), "0001-0123456789ab.patch");
    assert_eq!(patch_file_name(C, 41, 12345), "00042-0123456789ab.patch");
    assert_eq!(patch_file_name("abc", 99999, 5), "100000-abc.patch");
}

#[test]
fn message_with_wide_characters_reads_back() {
    let message = "naïve fix ✓\n\nmessage 3\nbody";
    let mut text = format_patch_header(C, P, &sig("Zoë", 7, 0), &sig("bob", 8, 330), message);
    assert!(text.contains("message 27\n"));
    text.push_str(DIFF);
    let (_diff, meta) = read_patch(text.as_bytes()).unwrap();
    assert_eq!(meta.commit_message, message);
    assert_eq!(meta.author.name, "Zoë");
    assert_eq!(meta.committer.offset_minutes, 330);
}

#[test]
fn metadata_and_diff_read_apart() {
    let header = format_patch_header(C, P, &sig("ann", 1, 0), &sig("bob", 2, 0), "m");
    let mut bytes = header.clone().into_bytes();
    bytes.extend_from_slice(b"diff --git a/x b/x\n@@ garbage");
    let meta = read_patch_metadata(&bytes).unwrap();
    assert_eq!(meta.commit_message, "m");
    assert_eq!(meta.author.name, "ann");
    assert!(matches!(read_patch_diff(&bytes), Err(PatchError::Diff(_))));
    assert!(matches!(read_patch_metadata(DIFF.as_bytes()), Err(PatchError::NoMetadata)));
    assert!(read_patch_diff(DIFF.as_bytes()).is_ok());
}

#[test]
fn diff_is_the_one_the_bytes_carry() {
    let d = read_patch_diff(DIFF.as_bytes()).unwrap();
    assert_eq!(d.git().deltas().len(), 1);
    let delta = d.git().get_delta(0).unwrap();
    assert_eq!(delta.new_file().path().unwrap().to_str(), Some("x.txt"));
    let two = format!("{DIFF}diff --git a/y.txt b/y.txt\nindex 7898192..6178079 100644\n--- a/y.txt\n+++ b/y.txt\n@@ -1 +1 @@\n-a\n+b\n");
    assert_eq!(read_patch_diff(two.as_bytes()).unwrap().git().deltas().len(), 2);
}
