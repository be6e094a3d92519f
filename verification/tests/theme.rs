use visor_md::limits::Degradation;
use visor_md::theme::{blend, day, night, Role};

fn relative_luminance((red, green, blue): (u8, u8, u8)) -> f64 {
    let channel = |value: u8| {
        let value = f64::from(value) / 255.0;
        if value <= 0.04045 {
            value / 12.92
        } else {
            ((value + 0.055) / 1.055).powf(2.4)
        }
    };
    0.2126 * channel(red) + 0.7152 * channel(green) + 0.0722 * channel(blue)
}

fn contrast(left: (u8, u8, u8), right: (u8, u8, u8)) -> f64 {
    let left = relative_luminance(left);
    let right = relative_luminance(right);
    (left.max(right) + 0.05) / (left.min(right) + 0.05)
}

#[test]
fn ambos_temas_conservan_contraste_para_lectura_y_controles() {
    for palette in [day(), night()] {
        assert!(contrast(palette.text, palette.surface) >= 7.0);
        assert!(contrast(palette.dim, palette.surface) >= 4.5);
        assert!(contrast(palette.accent, palette.surface) >= 4.5);
    }
}

#[test]
fn cada_rol_toma_su_color() {
    let p = night();
    assert_eq!(p.resolve(Role::Text), p.text);
    assert_eq!(p.resolve(Role::Dim), p.dim);
    assert_eq!(p.resolve(Role::Accent), p.accent);
    assert_ne!(day().accent, night().accent);
}

#[test]
fn cada_degradacion_tiene_su_explicacion() {
    assert!(Degradation::LineLimit.explanation().contains("longitud de línea"));
    assert!(Degradation::TextOnly.explanation().contains("texto inerte"));
    assert_ne!(
        Degradation::DepthLimit.explanation(),
        Degradation::BlockLimit.explanation()
    );
}

#[test]
fn mezclar_un_color_respeta_la_cobertura() {
    assert_eq!(blend((10, 20, 30), (200, 100, 0), 0), (10, 20, 30));
    assert_eq!(blend((10, 20, 30), (200, 100, 0), 255), (200, 100, 0));
    assert_eq!(blend((0, 0, 0), (255, 255, 255), 128), (128, 128, 128));
    assert_eq!(blend((255, 0, 100), (0, 255, 100), 51), (204, 51, 100));
}
