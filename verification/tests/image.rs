use yachiyo::clock::LocalTime;
use yachiyo::image_name::attachment_paths;
use yachiyo::image_name::image_stem_of;
use yachiyo::image_name::lower_image_type;
use yachiyo::image_name::place_attachment;
use yachiyo::image_name::resolve_image_type;
use yachiyo::image_name::web_image_dir;
use yachiyo::image_name::web_image_name;
use yachiyo::picture::convert_to_jpeg_q100;
use yachiyo::picture::is_too_large;
use yachiyo::picture::resize_to_webp_1024;
use yachiyo::picture::PictureError;

fn now() -> LocalTime {
    LocalTime::new(2025, 3, 4, 5, 6, 7, 8).unwrap()
}

fn png(width: u32, height: u32) -> Vec<u8> {
    let mut file = std::io::Cursor::new(Vec::new());
    image::DynamicImage::new_rgba8(width, height)
        .write_to(&mut file, image::ImageFormat::Png)
        .unwrap();
    file.into_inner()
}

fn format_and_size(file: &[u8]) -> (image::ImageFormat, u32, u32) {
    let picture = image::load_from_memory(file).unwrap();
    (image::guess_format(file).unwrap(), picture.width(), picture.height())
}

#[test]
fn images_have_types() {
    assert_eq!(resolve_image_type("image/JPEG", "x"), Some("jpg"));
    assert_eq!(resolve_image_type("image/jpg", "x.png"), Some("jpg"));
    assert_eq!(resolve_image_type("", "X.JPEG"), Some("jpg"));
    assert_eq!(resolve_image_type("image/png", "x.webp"), Some("png"));
    assert_eq!(resolve_image_type("", "写真.Png"), Some("png"));
    assert_eq!(resolve_image_type("IMAGE/WEBP", ""), Some("webp"));
    assert_eq!(resolve_image_type("image/gif", "x.gif"), None);
    assert_eq!(resolve_image_type("", "jpg"), None);
    assert_eq!(lower_image_type("", "x.JPG"), None);
    assert_eq!(lower_image_type("", "x.jpg"), Some("jpg"));
}

#[test]
fn stems_go_as_in_std() {
    for name in [
        "a.png", "a", ".a", ".a.b", "a.", "..", ".", "", "/", "x/y.jpg", "x/..", "x/.", "./.", "..a", "a..b",
        "x//", "x/y/", "../.", "月見.tar.gz", "x\\y.png", "...", "/..", ".../x",
    ] {
        let std = std::path::Path::new(name)
            .file_stem()
            .and_then(|s| s.to_str())
            .unwrap_or("image");
        assert_eq!(image_stem_of(name), std, "{:?}", name);
    }
}

#[test]
fn attachments_have_their_places() {
    let p = place_attachment(&now(), "cat.final.PNG", "image/png", "/data/images//").ok().unwrap();
    assert_eq!(p.save_path, "/data/images/20250304_050607_cat.final.png");
    assert_eq!(p.upload_filename, "20250304_050607_cat.final.jpg");
    let p = attachment_paths(&now(), "..", "webp", "d");
    assert_eq!(p.save_path, "d/20250304_050607_image.webp");
    assert_eq!(p.upload_filename, "20250304_050607_image.jpg");
    assert_eq!(
        place_attachment(&now(), "a.txt", "text/plain", "d").err().unwrap(),
        "非対応の画像フォーマット: text/plain / a.txt"
    );
}

#[test]
fn images_from_the_web_have_names() {
    assert_eq!(web_image_dir("/data/images/"), "/data/images/web");
    assert_eq!(web_image_name(&now(), 0), "web_20250304_050607_008.webp");
    assert_eq!(web_image_name(&now(), 12), "web_20250304_050607_008_12.webp");
    let later = LocalTime::new(2025, 3, 4, 5, 6, 7, 9).unwrap();
    assert_ne!(web_image_name(&now(), 0), web_image_name(&later, 0));
}

#[test]
fn a_picture_becomes_a_jpeg() {
    let file = convert_to_jpeg_q100(&png(3, 2)).ok().unwrap();
    assert_eq!(format_and_size(&file), (image::ImageFormat::Jpeg, 3, 2));
    assert!(matches!(convert_to_jpeg_q100(b"no picture"), Err(PictureError::Unreadable(_))));
}

#[test]
fn a_picture_that_is_too_long_is_no_jpeg() {
    let long = png(65536, 1);
    assert!(matches!(convert_to_jpeg_q100(&long), Err(PictureError::Unwritable(_))));
}

#[test]
fn a_small_picture_keeps_its_size() {
    let file = resize_to_webp_1024(&png(1024, 5)).ok().unwrap();
    assert_eq!(format_and_size(&file), (image::ImageFormat::WebP, 1024, 5));
    let file = resize_to_webp_1024(&png(1, 1)).ok().unwrap();
    assert_eq!(format_and_size(&file), (image::ImageFormat::WebP, 1, 1));
}

#[test]
fn a_large_picture_is_scaled_down() {
    let file = resize_to_webp_1024(&png(2048, 512)).ok().unwrap();
    assert_eq!(format_and_size(&file), (image::ImageFormat::WebP, 1024, 256));
    let file = resize_to_webp_1024(&png(700, 1500)).ok().unwrap();
    assert_eq!(format_and_size(&file), (image::ImageFormat::WebP, 478, 1024));
    let file = resize_to_webp_1024(&png(1, 1500)).ok().unwrap();
    assert_eq!(format_and_size(&file), (image::ImageFormat::WebP, 1, 1024));
    assert!(is_too_large(1025, 1) && is_too_large(1, 1025) && !is_too_large(1024, 1024));
}

#[test]
fn what_is_no_picture_is_not_resized() {
    assert!(matches!(resize_to_webp_1024(b""), Err(PictureError::Unreadable(_))));
}
