use zk_email_vrm::{get_email_circuit_public_hash_input, get_email_substrs, get_substr};

#[test]
fn substr_narrowed_by_each_regex() {
    let r = get_substr("from:alice@zkemail.com\r\nto:bob", &["(?<=from:).*@.*(?=\r)".to_string(), "@.*".to_string()]);
    assert_eq!(r, Some((10, "@zkemail.com".to_string())));
    assert_eq!(get_substr("abc", &["z".to_string()]), None);
    assert_eq!(get_substr("abc", &["(".to_string()]), None);
    assert_eq!(get_substr("abc", &[]), Some((0, "abc".to_string())));
}

#[test]
fn email_substrs_start_with_the_body_hash() {
    let header = "dkim-signature:v=1; bh=AbC+/9=; b=xyz\r\nsubject:hello\r\n";
    let body = "pay 5 dollars";
    let (h, b) = get_email_substrs(
        header,
        body,
        vec![vec!["(?<=subject:).*(?=\r)".to_string()]],
        vec![vec!["[0-9]+".to_string()], vec!["euro".to_string()]],
    );
    assert_eq!(h.len(), 2);
    assert_eq!(h[0], Some((23, "AbC+/9=".to_string())));
    assert_eq!(h[1], Some((47, "hello".to_string())));
    assert_eq!(b, vec![Some((4, "5".to_string())), None]);
}

#[test]
fn public_hash_input_layout() {
    let headerhash = [1u8, 2];
    let key = [9u8];
    let header = vec![Some((1, "ab".to_string())), None, Some((0, "z".to_string()))];
    let body = vec![Some((1, "q".to_string()))];
    let r = get_email_circuit_public_hash_input(&headerhash, &key, header, body, 4, 3);
    let mut want: Vec<u8> = vec![1, 2, b'a', b'b'];
    want.extend(vec![0u8; 52]);
    want.push(9);
    // masked characters over 4 header and 3 body positions
    want.extend(vec![b'z', b'a', b'b', 0, 0, b'q', 0]);
    // substring ids
    want.extend(vec![3, 1, 1, 0, 0, 1, 0]);
    assert_eq!(r, want);
}
