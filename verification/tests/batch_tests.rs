use sen::batch::{batch_decrypted_name, batch_encrypted_name, collision_free_name};

#[test]
fn encrypted_names() {
    assert_eq!(batch_encrypted_name("notes.txt"), "notes.txt.sen");
    assert_eq!(batch_encrypted_name(""), ".sen");
}

#[test]
fn decrypted_names() {
    assert_eq!(batch_decrypted_name("notes.txt.sen", ""), "notes.txt");
    assert_eq!(batch_decrypted_name("notes.sen", "txt"), "notes.txt");
    assert_eq!(batch_decrypted_name("a.sen.sen", "md"), "a.md");
    assert_eq!(batch_decrypted_name("plain", "txt"), "plain.txt");
    assert_eq!(batch_decrypted_name(".sen", ""), "");
    for name in ["x.sen", "x.sen.sen", "sen", "y.SEN", "z.sen.txt"] {
        assert_eq!(batch_decrypted_name(name, ""), name.trim_end_matches(".sen"));
    }
    assert_eq!(collision_free_name("notes"), "notes.decrypted");
}
