use visor_md::files::{admit_document, decode_document, OpenRejection};

#[test]
fn solo_se_admite_un_archivo_normal_dentro_del_limite() {
    assert_eq!(admit_document(true, 64, 64), Ok(()));
    assert_eq!(admit_document(false, 1, 64), Err(OpenRejection::NotAFile));
    assert_eq!(admit_document(true, 65, 64), Err(OpenRejection::TooLarge { bytes: 65, limit: 64 }));
}

#[test]
fn el_texto_leido_respeta_el_limite_y_utf8() {
    assert_eq!(decode_document(b"# nota\n".to_vec(), 64), Ok("# nota\n".to_string()));
    assert_eq!(decode_document(b"12345".to_vec(), 4), Err(OpenRejection::TooLarge { bytes: 5, limit: 4 }));
    assert_eq!(decode_document(vec![0xff, 0xfe], 64), Err(OpenRejection::InvalidUtf8));
    assert_eq!(decode_document("áé".as_bytes().to_vec(), 4), Ok("áé".to_string()));
    assert_eq!(decode_document(vec![0xed, 0xa0, 0x80], 64), Err(OpenRejection::InvalidUtf8));
}
