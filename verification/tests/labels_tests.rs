use rts_core::labels::{label_less, label_order};

fn bytes(s: &str) -> Vec<u8> {
    s.as_bytes().to_vec()
}

#[test]
fn labels_compare_as_strings_do() {
    let pairs = [("a", "b"), ("Ab", "a"), ("", "x"), ("abc", "abd"), ("ab", "abc"), ("same", "same"), ("z", "yz")];
    for (a, b) in pairs {
        assert_eq!(label_less(&bytes(a), &bytes(b)), a < b, "{} < {}", a, b);
    }
}

#[test]
fn label_order_is_stable_alphabetical() {
    let labels = vec![bytes("Knight"), bytes("Archer"), bytes("Knight"), bytes("Cavalry"), bytes("Archer")];
    assert_eq!(label_order(&labels), vec![1, 4, 3, 0, 2]);
    assert!(label_order(&vec![]).is_empty());
}
