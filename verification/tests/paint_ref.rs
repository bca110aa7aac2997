use brush::paint::paint;
use brush::Rgba8;

#[test]
fn test_paint() {
    let z = Rgba8::transparent();
    let w = Rgba8::white();

    let brush1 = vec![
        z, z, z,
        z, w, z,
        z, z, z,
    ];

    let brush2 = vec![
        z, z, z, z,
        z, w, w, z,
        z, w, w, z,
        z, z, z, z,
    ];

    let brush3 = vec![
        z, z, z, z, z,
        z, z, w, z, z,
        z, w, w, w, z,
        z, z, w, z, z,
        z, z, z, z, z,
    ];

    let brush5 = vec![
        z, z, z, z, z, z, z,
        z, z, w, w, w, z, z,
        z, w, w, w, w, w, z,
        z, w, w, w, w, w, z,
        z, w, w, w, w, w, z,
        z, z, w, w, w, z, z,
        z, z, z, z, z, z, z,
    ];

    let brush7 = vec![
        z, z, z, z, z, z, z, z, z,
        z, z, z, w, w, w, z, z, z,
        z, z, w, w, w, w, w, z, z,
        z, w, w, w, w, w, w, w, z,
        z, w, w, w, w, w, w, w, z,
        z, w, w, w, w, w, w, w, z,
        z, z, w, w, w, w, w, z, z,
        z, z, z, w, w, w, z, z, z,
        z, z, z, z, z, z, z, z, z
    ];

    let brush15 = vec![
        z, z, z, z, z, w, w, w, w, w, z, z, z, z, z,
        z, z, z, w, w, w, w, w, w, w, w, w, z, z, z,
        z, z, w, w, w, w, w, w, w, w, w, w, w, z, z,
        z, w, w, w, w, w, w, w, w, w, w, w, w, w, z,
        z, w, w, w, w, w, w, w, w, w, w, w, w, w, z,
        w, w, w, w, w, w, w, w, w, w, w, w, w, w, w,
        w, w, w, w, w, w, w, w, w, w, w, w, w, w, w,
        w, w, w, w, w, w, w, w, w, w, w, w, w, w, w,
        w, w, w, w, w, w, w, w, w, w, w, w, w, w, w,
        w, w, w, w, w, w, w, w, w, w, w, w, w, w, w,
        z, w, w, w, w, w, w, w, w, w, w, w, w, w, z,
        z, w, w, w, w, w, w, w, w, w, w, w, w, w, z,
        z, z, w, w, w, w, w, w, w, w, w, w, w, z, z,
        z, z, z, w, w, w, w, w, w, w, w, w, z, z, z,
        z, z, z, z, z, w, w, w, w, w, z, z, z, z, z,
    ];

    {
        let mut canvas = vec![Rgba8::transparent(); 3 * 3];
        paint(&mut canvas, 3, 3, 2, 2, 1, Rgba8::white());
        assert_eq!(canvas, brush1);
    }

    {
        let mut canvas = vec![Rgba8::transparent(); 4 * 4];
        paint(&mut canvas, 4, 4, 3, 3, 2, Rgba8::white());
        assert_eq!(canvas, brush2);
    }

    {
        let mut canvas = vec![Rgba8::transparent(); 5 * 5];
        paint(&mut canvas, 5, 5, 4, 4, 3, Rgba8::white());
        assert_eq!(canvas, brush3);
    }

    {
        let mut canvas = vec![Rgba8::transparent(); 7 * 7];
        paint(&mut canvas, 7, 7, 6, 6, 5, Rgba8::white());
        assert_eq!(canvas, brush5);
    }

    {
        let mut canvas = vec![Rgba8::transparent(); 9 * 9];
        paint(&mut canvas, 9, 9, 8, 8, 7, Rgba8::white());
        assert_eq!(canvas, brush7);
    }

    {
        let mut canvas = vec![Rgba8::transparent(); 15 * 15];
        paint(&mut canvas, 15, 15, 14, 14, 15, Rgba8::white());
        assert_eq!(canvas, brush15);
    }
}
