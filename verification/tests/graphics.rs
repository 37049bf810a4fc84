use touchhle::cg_bitmap_context::{
    components_for_gray, components_for_rgb, get_data, raster_coords, BlendMode,
    CGBitmapContextCreate, CGBitmapContextCreateImage, CGBitmapContextData,
    CGBitmapContextDrawer, CGBitmapContextGetBytesPerRow, CGBitmapContextGetData,
    CGBitmapContextGetHeight, CGBitmapContextGetWidth, CGContextClearRect, CGContextDrawImage,
    CGContextFillRect, ColorSpace, PixelBytes, Sample, Texture,
};
use touchhle::cg_context::{
    current_point_of, read_glyphs, stroke_state, CGContextAddArc, CGContextAddLineToPoint,
    CGContextAddRect, CGContextBeginPath, CGContextClip, CGContextClosePath, CGContextConcatCTM,
    CGContextDrawPath, CGContextGetCTM, CGContextMoveToPoint, CGContextRelease, CGContextRetain,
    CGContextRestoreGState, CGContextRotateCTM, CGContextSaveGState, CGContextScaleCTM,
    CGContextSetFont, CGContextSetFontSize, CGContextSetGrayFillColor,
    CGContextSetGrayStrokeColor, CGContextSetLineWidth, CGContextSetRGBFillColor,
    CGContextSetRGBStrokeColor, CGContextTranslateCTM, PathDrawing, Point, SubPath, Transform,
};
use touchhle::cg_path::{
    crossed_edges, polygon_edges, row_spans, sort_crossings, stroke_segments, vertical_extent,
    Crossing,
};
use touchhle::objc::{Environment, HostObject, NIL};

fn f(x: f32) -> u32 {
    x.to_bits()
}

fn point(x: f32, y: f32) -> Point {
    Point { x: f(x), y: f(y) }
}

fn pixel(r: u8, g: u8, b: u8, a: u8) -> PixelBytes {
    PixelBytes { r, g, b, a }
}

fn context(env: &mut Environment, width: u32, height: u32, info: u32) -> u32 {
    CGBitmapContextCreate(env, 0, width, height, 8, 0, ColorSpace::GenericRGB, info)
}

fn font_count(env: &Environment, font: u32) -> Option<u32> {
    env.objc.objects[font as usize].retain_count
}

#[test]
fn components_of_formats() {
    assert_eq!(components_for_rgb(0), Some(3));
    for info in 1..=6 {
        assert_eq!(components_for_rgb(info), Some(4));
        assert_eq!(components_for_gray(info), Some(2));
    }
    assert_eq!(components_for_rgb(7), Some(1));
    assert_eq!(components_for_gray(0), Some(1));
    assert_eq!(components_for_gray(7), Some(1));
    assert_eq!(components_for_rgb(8), None);
    assert_eq!(components_for_rgb(0x4000 | 1), Some(4));
    assert_eq!(components_for_rgb(0x2000 | 1), None);
    assert_eq!(components_for_rgb(0x100 | 1), None);
}

#[test]
fn bitmap_contexts_own_their_buffer_or_not() {
    let mut env = Environment::new(0x1000);
    let c = context(&mut env, 3, 2, 1);
    let data = CGBitmapContextGetData(&env, c);
    assert_eq!(CGBitmapContextGetWidth(&env, c), 3);
    assert_eq!(CGBitmapContextGetHeight(&env, c), 2);
    assert_eq!(CGBitmapContextGetBytesPerRow(&env, c), 12);
    assert_eq!(get_data(&env.objc, c), (3, 2, data));
    assert_eq!(env.mem.allocations, vec![(data, 24)]);
    let shared = CGBitmapContextCreate(
        &mut env,
        data,
        3,
        2,
        8,
        16,
        ColorSpace::GenericGray,
        0,
    );
    assert_eq!(CGBitmapContextGetBytesPerRow(&env, shared), 16);
    CGContextRelease(&mut env, shared);
    assert_eq!(env.mem.allocations.len(), 1);
    CGContextRetain(&mut env, c);
    CGContextRelease(&mut env, c);
    assert!(env.objc.is_object(c));
    CGContextRelease(&mut env, c);
    assert!(!env.objc.is_object(c));
    assert!(env.mem.allocations.is_empty());
    CGContextRelease(&mut env, NIL);
    assert_eq!(CGContextRetain(&mut env, NIL), NIL);
}

#[test]
fn pixels_of_every_format() {
    // The bytes that (1, 2, 3, 4) is stored as.
    let stored: Vec<(ColorSpace, u32, Vec<u8>)> = vec![
        (ColorSpace::GenericRGB, 0, vec![1, 2, 3]),
        (ColorSpace::GenericRGB, 1, vec![1, 2, 3, 4]),
        (ColorSpace::GenericRGB, 2, vec![4, 1, 2, 3]),
        (ColorSpace::GenericRGB, 3, vec![1, 2, 3, 4]),
        (ColorSpace::GenericRGB, 4, vec![4, 1, 2, 3]),
        (ColorSpace::GenericRGB, 5, vec![1, 2, 3, 0]),
        (ColorSpace::GenericRGB, 6, vec![0, 1, 2, 3]),
        (ColorSpace::GenericRGB, 7, vec![4]),
        (ColorSpace::GenericGray, 0, vec![3]),
        (ColorSpace::GenericGray, 1, vec![3, 4]),
        (ColorSpace::GenericGray, 2, vec![4, 3]),
        (ColorSpace::GenericGray, 3, vec![3, 4]),
        (ColorSpace::GenericGray, 4, vec![4, 3]),
        (ColorSpace::GenericGray, 5, vec![3, 0]),
        (ColorSpace::GenericGray, 6, vec![0, 3]),
        (ColorSpace::GenericGray, 7, vec![4]),
    ];
    for (space, info, bytes) in stored {
        let mut env = Environment::new(0x1000);
        let c = CGBitmapContextCreate(&mut env, 0, 2, 2, 8, 0, space, info);
        let drawer = CGBitmapContextDrawer::new(&env.objc, c);
        assert_eq!((drawer.width(), drawer.height()), (2, 2));
        let size = drawer.bitmap_info.bytes_per_pixel();
        assert_eq!(size as usize, bytes.len());
        drawer.put_pixel(&mut env.mem, (1, 0), pixel(1, 2, 3, 4));
        // The lowest row is the last one.
        let data = CGBitmapContextGetData(&env, c);
        assert_eq!(env.mem.bytes_at(data + 3 * size, size), bytes);
        assert_eq!(env.mem.bytes_at(data, 3 * size), vec![0; 3 * bytes.len()]);
        let read = drawer.bitmap_info.get_pixel(&env.mem, (1, 0)).unwrap();
        assert_eq!(read.a, if info == 0 || info == 5 || info == 6 { 255 } else { 4 });
        drawer.put_pixel(&mut env.mem, (2, 0), pixel(9, 9, 9, 9));
        drawer.put_pixel(&mut env.mem, (0, -1), pixel(9, 9, 9, 9));
        assert_eq!(env.mem.bytes_at(data, 3 * size), vec![0; 3 * bytes.len()]);
        assert_eq!(drawer.bitmap_info.get_pixel(&env.mem, (0, 2)), None);
        assert_eq!(drawer.rgb_fill_color().1, info == 1 || info == 2);
    }
}

#[test]
fn blending_depends_on_the_format() {
    let data = |alpha_info| CGBitmapContextData {
        data: 0,
        data_is_owned: false,
        width: 1,
        height: 1,
        bits_per_component: 8,
        bytes_per_row: 4,
        color_space: ColorSpace::GenericRGB,
        alpha_info,
    };
    assert_eq!(data(3).blend_mode(true), BlendMode::Straight);
    assert_eq!(data(4).blend_mode(true), BlendMode::Straight);
    assert_eq!(data(1).blend_mode(true), BlendMode::Premultiplied);
    assert_eq!(data(7).blend_mode(true), BlendMode::AlphaOnly);
    assert_eq!(data(5).blend_mode(true), BlendMode::Replace);
    assert_eq!(data(1).blend_mode(false), BlendMode::Replace);
}

#[test]
fn rectangles_are_filled_and_cleared() {
    let mut env = Environment::new(0x1000);
    let c = context(&mut env, 2, 1, 1);
    let data = CGBitmapContextGetData(&env, c);
    let red = pixel(255, 0, 0, 128);
    CGContextFillRect(&mut env, c, &vec![((0, 0), red), ((1, 0), red), ((5, 5), red)]);
    assert_eq!(env.mem.bytes_at(data, 8), vec![255, 0, 0, 128, 255, 0, 0, 128]);
    for _ in 0..2 {
        CGContextClearRect(&mut env, c, &vec![(1, 0), (-1, 0)]);
        assert_eq!(env.mem.bytes_at(data, 8), vec![255, 0, 0, 128, 0, 0, 0, 0]);
    }
    let (image, width, height) = CGBitmapContextCreateImage(&env, c);
    assert_eq!((image, width, height), (vec![255, 0, 0, 128, 0, 0, 0, 0], 2, 1));
    assert_eq!(
        raster_coords(1, 3, 4, 6),
        vec![(1, 4), (2, 4), (1, 5), (2, 5)]
    );
    assert_eq!(raster_coords(3, 1, 4, 6), vec![]);
    assert_eq!(raster_coords(0, 1, 6, 4), vec![]);
}

#[test]
fn opaque_texels_skip_the_background() {
    let mut env = Environment::new(0x1000);
    let c = context(&mut env, 2, 2, 1);
    let data = CGBitmapContextGetData(&env, c);
    let image = Texture { pixels: vec![10, 20, 30, 255, 1, 2, 3, 100], width: 2, height: 1 };
    let roundtrip: Vec<u8> = (0..=255u8).map(|b| b / 2).collect();
    let blended = pixel(7, 8, 9, 10);
    CGContextDrawImage(
        &mut env,
        c,
        &image,
        &roundtrip,
        &vec![
            Sample { coords: (0, 1), texel: (0, 0), blended },
            Sample { coords: (1, 1), texel: (1, 0), blended },
            Sample { coords: (0, 0), texel: (0, 1), blended },
            Sample { coords: (1, 0), texel: (-1, 0), blended },
        ],
    );
    assert_eq!(
        env.mem.bytes_at(data, 16),
        vec![5, 10, 15, 255, 7, 8, 9, 10, 0, 0, 0, 0, 0, 0, 0, 0]
    );
}

#[test]
fn restoring_undoes_all_since_saving() {
    let mut env = Environment::new(0x1000);
    let font = env.objc.alloc_object(HostObject::Instance(1));
    let other = env.objc.alloc_object(HostObject::Instance(1));
    let c = context(&mut env, 1, 1, 1);
    CGContextSetRGBFillColor(&mut env, c, 1, 2, 3, 4);
    CGContextSetFont(&mut env, c, font);
    CGContextSetFontSize(&mut env, c, f(9.0));
    CGContextSetRGBStrokeColor(&mut env, c, 5, 6, 7, 8);
    assert_eq!(font_count(&env, font), Some(2));
    let before = CGBitmapContextDrawer::new(&env.objc, c);
    CGContextSaveGState(&mut env, c);
    assert_eq!(font_count(&env, font), Some(3));
    CGContextSetGrayFillColor(&mut env, c, 9, 10);
    CGContextSetFont(&mut env, c, other);
    CGContextSetLineWidth(&mut env, c, f(3.0));
    CGContextSetGrayStrokeColor(&mut env, c, 1, 1);
    let t = Transform { a: 1, b: 2, c: 3, d: 4, tx: 5, ty: 6 };
    CGContextConcatCTM(&mut env, c, t);
    assert_eq!(CGContextGetCTM(&env, c), t);
    CGContextMoveToPoint(&mut env, c, point(1.0, 1.0));
    assert_eq!(font_count(&env, font), Some(2));
    assert_eq!(font_count(&env, other), Some(2));
    CGContextRestoreGState(&mut env, c);
    assert_eq!(CGBitmapContextDrawer::new(&env.objc, c), before);
    assert_eq!(font_count(&env, font), Some(2));
    assert_eq!(font_count(&env, other), Some(1));
    let stroke = stroke_state(&env, c);
    assert_eq!(stroke.line_width, f(1.0));
    assert_eq!(stroke.rgb_stroke_color.r, 5);
    // The path is not part of the drawing state.
    assert_eq!(current_point_of(&env, c), Some(point(1.0, 1.0)));
    CGContextRelease(&mut env, c);
    assert_eq!(font_count(&env, font), Some(1));
}

#[test]
fn transforms_are_set() {
    let mut env = Environment::new(0x1000);
    let c = context(&mut env, 1, 1, 1);
    let identity = Transform { a: f(1.0), b: 0, c: 0, d: f(1.0), tx: 0, ty: 0 };
    assert_eq!(CGContextGetCTM(&env, c), identity);
    let t = |tx| Transform { tx, ..identity };
    CGContextRotateCTM(&mut env, c, t(1));
    assert_eq!(CGContextGetCTM(&env, c), t(1));
    CGContextScaleCTM(&mut env, c, t(2));
    assert_eq!(CGContextGetCTM(&env, c), t(2));
    CGContextTranslateCTM(&mut env, c, t(3));
    assert_eq!(CGContextGetCTM(&env, c), t(3));
}

#[test]
fn paths_are_built() {
    let mut env = Environment::new(0x1000);
    let c = context(&mut env, 1, 1, 1);
    CGContextAddLineToPoint(&mut env, c, point(9.0, 9.0));
    assert_eq!(current_point_of(&env, c), None);
    CGContextMoveToPoint(&mut env, c, point(0.0, 0.0));
    CGContextMoveToPoint(&mut env, c, point(1.0, 0.0));
    CGContextAddLineToPoint(&mut env, c, point(2.0, 0.0));
    CGContextClosePath(&mut env, c);
    assert_eq!(current_point_of(&env, c), Some(point(1.0, 0.0)));
    CGContextAddLineToPoint(&mut env, c, point(3.0, 0.0));
    CGContextAddArc(&mut env, c, &vec![point(4.0, 0.0), point(5.0, 0.0)]);
    CGContextAddRect(&mut env, c, vec![point(6.0, 0.0), point(7.0, 0.0)]);
    let (path, drawing) = CGContextDrawPath(&mut env, c, 4);
    assert_eq!(drawing, PathDrawing { fill: Some(true), stroke: true });
    let shape: Vec<(Vec<f32>, bool)> = path
        .iter()
        .map(|s| (s.points.iter().map(|p| f32::from_bits(p.x)).collect(), s.closed))
        .collect();
    assert_eq!(
        shape,
        vec![
            (vec![1.0, 2.0], true),
            (vec![1.0, 3.0, 4.0, 5.0], false),
            (vec![6.0, 7.0], true),
        ]
    );
    assert_eq!(current_point_of(&env, c), None);
    CGContextAddArc(&mut env, c, &vec![point(4.0, 0.0), point(5.0, 0.0)]);
    assert_eq!(current_point_of(&env, c), Some(point(5.0, 0.0)));
    CGContextClip(&mut env, c);
    assert_eq!(current_point_of(&env, c), None);
    CGContextMoveToPoint(&mut env, c, point(0.0, 0.0));
    CGContextBeginPath(&mut env, c);
    assert_eq!(current_point_of(&env, c), None);
    let modes: Vec<PathDrawing> = (-1..6).map(|m| CGContextDrawPath(&mut env, c, m).1).collect();
    let d = |fill, stroke| PathDrawing { fill, stroke };
    assert_eq!(
        modes,
        vec![
            d(None, false),
            d(Some(false), false),
            d(Some(true), false),
            d(None, true),
            d(Some(false), true),
            d(Some(true), true),
            d(None, false),
        ]
    );
    // All of this does nothing for no context.
    CGContextMoveToPoint(&mut env, NIL, point(0.0, 0.0));
    CGContextSetLineWidth(&mut env, NIL, 0);
    assert!(CGContextDrawPath(&mut env, NIL, 0).0.is_empty());
}

#[test]
fn polygons_are_filled_by_both_rules() {
    // Two squares of the same direction, one inside of the other.
    let square = |from: f32, to: f32| {
        vec![point(from, from), point(to, from), point(to, to), point(from, to)]
    };
    let edges = polygon_edges(&vec![
        square(0.0, 6.0),
        square(2.0, 4.0),
        vec![point(0.0, 0.0), point(1.0, 1.0)],
        vec![point(0.0, 0.0), point(f32::NAN, 1.0), point(0.0, 1.0)],
    ]);
    assert_eq!(edges.len(), 4);
    assert_eq!(edges.iter().map(|e| e.direction).collect::<Vec<i32>>(), vec![1, -1, 1, -1]);
    assert_eq!(vertical_extent(&edges), Some((f(0.0), f(6.0))));
    assert_eq!(vertical_extent(&vec![]), None);
    let fill = |row: i32, even_odd: bool| {
        let found = crossed_edges(&edges, f(row as f32 + 0.5));
        let crossings: Vec<Crossing> = found
            .iter()
            .map(|e| {
                let x = f32::from_bits(e.from.x);
                Crossing { x: e.from.x, column: (x - 0.5).ceil() as i32, direction: e.direction }
            })
            .collect();
        row_spans(&sort_crossings(&crossings), even_odd, 5)
    };
    assert_eq!(fill(0, false), vec![(0, 5)]);
    assert_eq!(fill(3, false), vec![(0, 2), (2, 4), (4, 5)]);
    assert_eq!(fill(3, true), vec![(0, 2), (4, 5)]);
    assert_eq!(fill(6, false), vec![]);
    assert_eq!(fill(-1, false), vec![]);
    // As many sides go up as go down.
    for row in 0..6 {
        let found = crossed_edges(&edges, f(row as f32 + 0.5));
        assert_eq!(found.iter().map(|e| e.direction).sum::<i32>(), 0);
        assert_eq!(found.len() % 2, 0);
    }
}

#[test]
fn crossings_are_sorted_stably() {
    let c = |x: f32, column| Crossing { x: f(x), column, direction: 1 };
    let sorted = sort_crossings(&vec![c(2.0, 0), c(-1.0, 1), c(2.0, 2), c(-0.0, 3), c(0.0, 4)]);
    assert_eq!(sorted.iter().map(|c| c.column).collect::<Vec<i32>>(), vec![1, 3, 4, 0, 2]);
}

#[test]
fn stroke_ends_go_on_where_lines_meet() {
    let points = vec![point(0.0, 0.0), point(1.0, 0.0), point(1.0, 1.0)];
    let open = stroke_segments(&SubPath { points: points.clone(), closed: false });
    assert_eq!(
        open.iter().map(|s| (s.extend_start, s.extend_end)).collect::<Vec<(bool, bool)>>(),
        vec![(false, true), (true, false)]
    );
    let closed = stroke_segments(&SubPath { points, closed: true });
    assert_eq!(closed.len(), 3);
    assert_eq!(closed[2].to, point(0.0, 0.0));
    assert!(closed.iter().all(|s| s.extend_start && s.extend_end));
    assert!(stroke_segments(&SubPath { points: vec![point(0.0, 0.0)], closed: true }).is_empty());
}

#[test]
fn glyphs_are_read_from_guest_memory() {
    let mut env = Environment::new(0x1000);
    let at = env.mem.allocate_with(&vec![0x41, 0x00, 0x34, 0x12], 4);
    assert_eq!(read_glyphs(&env.mem, at, 2), vec![0x41, 0x1234]);
    assert!(read_glyphs(&env.mem, 0xffff_fff0, 0).is_empty());
}

#[test]
fn restoring_undoes_nested_changes() {
    let mut env = Environment::new(0x1000);
    let c = context(&mut env, 1, 1, 1);
    CGContextSetRGBFillColor(&mut env, c, 1, 2, 3, 4);
    CGContextSetLineWidth(&mut env, c, f(2.0));
    let before = CGBitmapContextDrawer::new(&env.objc, c);
    CGContextSaveGState(&mut env, c);
    for width in [3.0, 4.0] {
        CGContextSetLineWidth(&mut env, c, f(width));
        CGContextSaveGState(&mut env, c);
        CGContextSetGrayFillColor(&mut env, c, 9, 10);
        CGContextRestoreGState(&mut env, c);
        assert_eq!(stroke_state(&env, c).line_width, f(width));
    }
    CGContextRestoreGState(&mut env, c);
    assert_eq!(CGBitmapContextDrawer::new(&env.objc, c), before);
    assert_eq!(stroke_state(&env, c).line_width, f(2.0));
}
