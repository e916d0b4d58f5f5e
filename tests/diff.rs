use au::diff::{common_prefix, common_suffix, plan_text_splice};

#[test]
fn test_common_prefix() {
    assert_eq!(common_prefix("".as_ref(), "".as_ref()), 0);
    assert_eq!(common_prefix("".as_ref(), "a".as_ref()), 0);
    assert_eq!(common_prefix("a".as_ref(), "".as_ref()), 0);
    assert_eq!(common_prefix("a".as_ref(), "a".as_ref()), 1);
    assert_eq!(common_prefix("a".as_ref(), "b".as_ref()), 0);
    assert_eq!(
        common_prefix("helloworld".repeat(20).as_ref(), "helloworld".repeat(21).as_ref()),
        20 * 10
    );
}

#[test]
fn test_common_suffix() {
    assert_eq!(common_suffix("".as_ref(), "".as_ref()), 0);
    assert_eq!(common_suffix("".as_ref(), "a".as_ref()), 0);
    assert_eq!(common_suffix("a".as_ref(), "".as_ref()), 0);
    assert_eq!(common_suffix("a".as_ref(), "b".as_ref()), 0);
    assert_eq!(
        common_suffix("helloworld".repeat(20).as_ref(), "helloworld".repeat(21).as_ref()),
        20 * 10
    );
    assert_eq!(common_suffix("a".as_ref(), "a".as_ref()), 1);
}

fn naive_prefix(a: &[u8], b: &[u8]) -> usize {
    a.iter().zip(b.iter()).take_while(|(x, y)| x == y).count()
}

fn naive_suffix(a: &[u8], b: &[u8]) -> usize {
    a.iter().rev().zip(b.iter().rev()).take_while(|(x, y)| x == y).count()
}

#[test]
fn block_scan_matches_naive_scan() {
    let base: Vec<u8> = (0..1000u32).map(|i| (i % 251) as u8).collect();
    for cut in [0usize, 1, 127, 128, 129, 255, 256, 257, 500, 999] {
        let mut other = base.clone();
        other[cut] = other[cut].wrapping_add(1);
        assert_eq!(common_prefix(&base, &other), naive_prefix(&base, &other));
        assert_eq!(common_prefix(&base, &other), cut);
        assert_eq!(common_suffix(&base, &other), naive_suffix(&base, &other));
        assert_eq!(common_suffix(&base, &other), 999 - cut);
    }
    assert_eq!(common_prefix(&base, &base), 1000);
    assert_eq!(common_suffix(&base, &base[300..]), 700);
    assert_eq!(common_prefix(&base[..384], &base), 384);
}

fn apply(old: &str, pos: usize, del: usize, ins: &str) -> String {
    let mut b = old.as_bytes()[..pos].to_vec();
    b.extend_from_slice(ins.as_bytes());
    b.extend_from_slice(&old.as_bytes()[pos + del..]);
    String::from_utf8(b).unwrap()
}

#[test]
fn splice_gives_new_text() {
    let cases = [
        ("hello world", "hello another world"),
        ("hello another world", "hello another planet"),
        ("hello another planet", "goodbye another planet"),
        ("caf\u{e9} noir", "caf\u{e8} noir"),
        ("\u{e9}t\u{e9}", "\u{e8}t\u{e9}"),
        ("same", "same"),
    ];
    for (old, new) in cases {
        match plan_text_splice(old, new) {
            Some((pos, del, ins)) => assert_eq!(apply(old, pos, del, ins), new),
            None => panic!("a splice was expected for {:?} -> {:?}", old, new),
        }
    }
    let plan = plan_text_splice("hello world", "hello another world").unwrap();
    assert_eq!((plan.0, plan.1, plan.2), (6, 0, "another "));
    assert!(plan_text_splice("abc", "xyz").is_none());
    assert!(plan_text_splice("", "xyz").is_none());
}
