use tiny_skia::Pixmap;
use visor_md::images::{decode_local_png, validate_png_header, ImageError, MAX_PNG_BYTES};

fn png_header(width: u32, height: u32) -> Vec<u8> {
    let mut bytes = Vec::from(b"\x89PNG\r\n\x1a\n".as_slice());
    bytes.extend_from_slice(&13_u32.to_be_bytes());
    bytes.extend_from_slice(b"IHDR");
    bytes.extend_from_slice(&width.to_be_bytes());
    bytes.extend_from_slice(&height.to_be_bytes());
    bytes
}

#[test]
fn rechaza_dimensiones_que_agotarian_memoria_antes_de_decodificar() {
    assert_eq!(
        validate_png_header(&png_header(8_192, 8_192)),
        Err(ImageError::DimensionsExceeded)
    );
    assert_eq!(
        validate_png_header(&png_header(16_384, 1)),
        Err(ImageError::DimensionsExceeded)
    );
}

#[test]
fn distingue_un_archivo_que_solo_finge_ser_png() {
    assert_eq!(
        validate_png_header(b"no es una imagen"),
        Err(ImageError::NotPng)
    );
}

#[test]
fn acepta_un_encabezado_con_presupuesto_valido() {
    assert_eq!(validate_png_header(&png_header(640, 480)), Ok((640, 480)));
}

#[test]
fn decodifica_un_png_pequeno_dentro_del_presupuesto() {
    let source = Pixmap::new(3, 2).unwrap();
    let encoded = source.encode_png().unwrap();

    assert_eq!(validate_png_header(&encoded), Ok((3, 2)));
    let decoded = decode_local_png(&encoded).unwrap();
    assert_eq!((decoded.width(), decoded.height()), (3, 2));
}

#[test]
fn los_pixeles_decodificados_son_los_del_png() {
    let mut source = Pixmap::new(2, 1).unwrap();
    source.fill(tiny_skia::Color::from_rgba8(10, 20, 30, 255));
    let encoded = source.encode_png().unwrap();
    let decoded = decode_local_png(&encoded).unwrap();
    assert_eq!(decoded.data(), source.data());
    assert_eq!(decoded.rgba.len(), 2 * 1 * 4);
    assert_eq!(&decoded.rgba[..4], &[10, 20, 30, 255]);
}

#[test]
fn un_encabezado_sin_ihdr_es_invalido() {
    let mut bytes = png_header(4, 4);
    bytes[12] = b'X';
    assert_eq!(validate_png_header(&bytes), Err(ImageError::InvalidHeader));
    let mut bytes = png_header(4, 4);
    bytes[11] = 12;
    assert_eq!(validate_png_header(&bytes), Err(ImageError::InvalidHeader));
    assert_eq!(validate_png_header(&png_header(4, 4)[..20]), Err(ImageError::InvalidHeader));
    assert_eq!(validate_png_header(&png_header(0, 4)), Err(ImageError::DimensionsExceeded));
}

#[test]
fn un_encabezado_valido_no_basta_para_decodificar() {
    assert!(matches!(
        decode_local_png(&png_header(4, 4)),
        Err(ImageError::Decode)
    ));
    let big = vec![0u8; MAX_PNG_BYTES as usize + 1];
    assert!(matches!(decode_local_png(&big), Err(ImageError::TooLarge)));
    assert_eq!(ImageError::NotPng.message(), "solo se permiten imágenes PNG locales");
}
