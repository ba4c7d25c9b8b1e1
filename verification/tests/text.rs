use secure_path::text::{chars_of, string_of};

#[test]
fn chars_of_gives_the_characters_in_order() {
    assert_eq!(chars_of(""), Vec::<char>::new());
    assert_eq!(chars_of("/a"), vec!['/', 'a']);
    assert_eq!(chars_of("é/ü"), vec!['é', '/', 'ü']);
}

#[test]
fn string_of_spells_the_characters_in_order() {
    assert_eq!(string_of(&Vec::new()), "");
    assert_eq!(string_of(&vec!['/', 'a']), "/a");
    assert_eq!(string_of(&vec!['b', 'a']), "ba");
    assert_eq!(string_of(&vec!['é', '/', 'ü']), "é/ü");
}

#[test]
fn string_of_undoes_chars_of() {
    for text in ["", "/", "/home/rootfs/a/b/c", "../../../", "a b", "日本語/パス"] {
        assert_eq!(string_of(&chars_of(text)), text);
    }
}
