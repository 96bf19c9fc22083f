use imageshare::commands::{parse_command, peer_address, request_text, ClientCommand};
use imageshare::leases::{classify_route, is_listed_image, listed_images, RouteKind, ViewCounts};
use imageshare::pages::{render_gallery, render_view_page, GALLERY_HEAD, GALLERY_TAIL};

#[test]
fn lease_grants_chosen_views() {
    for n in [0u32, 1, 3, 10] {
        let mut counts = ViewCounts::new();
        counts.lease("cat.png", n);
        let route = "/temp/cat.png".to_string();
        for k in 1..=n {
            let v = counts.visit(&route);
            assert!(v.shown);
            assert_eq!(v.remaining, n - k);
            assert_eq!(v.file_name, "cat.png");
            assert_eq!(v.image_path, "/static/cat.png");
        }
        for _ in 0..3 {
            let v = counts.visit(&route);
            assert!(!v.shown);
            assert_eq!(v.remaining, 0);
            assert_eq!(v.file_name, "blank.jpg");
            assert_eq!(v.image_path, "/static/blank.jpg");
        }
    }
}

#[test]
fn lease_of_three_fourth_view_fails() {
    let mut counts = ViewCounts::new();
    counts.lease("img.png", 3);
    let route = "/temp/img.png".to_string();
    let shown: Vec<bool> = (0..4).map(|_| counts.visit(&route).shown).collect();
    assert_eq!(shown, vec![true, true, true, false]);
    counts.lease("img.png", 1);
    assert!(counts.visit(&route).shown);
    assert!(!counts.visit(&route).shown);
}

#[test]
fn unleased_image_is_blank() {
    let mut counts = ViewCounts::new();
    let route = "/temp/dog.png".to_string();
    let v = counts.visit(&route);
    assert!(!v.shown);
    assert_eq!(v.remaining, 0);
    assert_eq!(counts.get(&route), None);
    assert!(!counts.visit(&route).shown);
}

#[test]
fn visit_removes_every_temp_segment() {
    let mut counts = ViewCounts::new();
    counts.set("/temp/a/temp/b.png".to_string(), 2);
    let v = counts.visit(&"/temp/a/temp/b.png".to_string());
    assert_eq!(v.file_name, "/temp/a/temp/b.png".replace("/temp/", ""));
    assert_eq!(counts.get(&"/temp/a/temp/b.png".to_string()), Some(1));
}

#[test]
fn view_page_matches_template() {
    let html = render_view_page(&"/static/cat.png".to_string(), 3, &"cat.png".to_string());
    assert!(html.contains("<img src=\"/static/cat.png\" />"));
    assert!(html.contains("<p>Views Remaining: 3</p>"));
    assert!(html.contains("<a href=\"/temp/cat.png\">Request Image</a>"));
    assert!(html.starts_with("\n                <html>"));
    let zero = render_view_page(&"/static/blank.jpg".to_string(), 0, &"blank.jpg".to_string());
    assert!(zero.contains("Views Remaining: 0"));
    let big = render_view_page(&"p".to_string(), u32::MAX, &"f".to_string());
    assert!(big.contains("Views Remaining: 4294967295"));
}

#[test]
fn gallery_lists_images() {
    let imgs: Vec<String> = vec!["./a.png".into(), "b.jpg".into()];
    let html = render_gallery(&imgs);
    let tile = |img: &str, name: &str| {
        format!(
            "<div>\n               <img src=\"/static/{}\" />  \n               <p>{}</p>\n               <a href=\"{}\">Request Image</a> \n               </div>",
            img,
            name,
            format!("/temp/{}", name)
        )
    };
    let expected = format!("{}{}{}{}", GALLERY_HEAD, tile("./a.png", "a.png"), tile("b.jpg", "b.jpg"), GALLERY_TAIL);
    assert_eq!(html, expected);
    assert_eq!(render_gallery(&vec![]), format!("{}{}", GALLERY_HEAD, GALLERY_TAIL));
}

#[test]
fn routes() {
    match classify_route("/static/cat.png") {
        RouteKind::StaticFile { path } => assert_eq!(path, "./static/cat.png"),
        _ => panic!("expected a static file"),
    }
    assert!(matches!(classify_route("/temp/cat.png"), RouteKind::LeasedImage));
    assert!(matches!(classify_route("/"), RouteKind::Gallery));
    assert!(matches!(classify_route("/static"), RouteKind::Gallery));
}

#[test]
fn listed_image_names() {
    assert!(is_listed_image("a.png"));
    assert!(is_listed_image("b.jpg"));
    assert!(is_listed_image("x.png.txt"));
    assert!(!is_listed_image("notes.txt"));
    assert!(!is_listed_image("jpg"));
    let names: Vec<String> = vec!["a.png".into(), "readme".into(), "c.jpg".into(), "d.gif".into()];
    assert_eq!(listed_images(&names), vec!["a.png".to_string(), "c.jpg".to_string()]);
}

#[test]
fn parse_commands() {
    assert!(matches!(parse_command("send cat.png\n"), Some(ClientCommand::Send { image_path }) if image_path == "cat.png"));
    assert!(matches!(parse_command("  list  "), Some(ClientCommand::List)));
    assert!(matches!(parse_command("lease cat.png"), Some(ClientCommand::Lease { image, views: 5 }) if image == "cat.png"));
    assert!(matches!(parse_command("lease cat.png 10"), Some(ClientCommand::Lease { image, views: 10 }) if image == "cat.png"));
    assert!(matches!(parse_command("lease cat.png 0 x"), Some(ClientCommand::Lease { views: 0, .. })));
    assert!(matches!(parse_command("lease cat.png 4294967295"), Some(ClientCommand::Lease { views: 4294967295, .. })));
    assert!(matches!(parse_command("lease cat.png 4294967296"), Some(ClientCommand::Invalid)));
    assert!(matches!(parse_command("lease cat.png extra"), Some(ClientCommand::Invalid)));
    assert!(matches!(parse_command("lease cat.png -3"), Some(ClientCommand::Invalid)));
    assert!(matches!(parse_command("request cat.png 10.0.0.2"), Some(ClientCommand::Request { image, host }) if image == "cat.png" && host == "10.0.0.2"));
    assert!(matches!(parse_command("dance"), Some(ClientCommand::Invalid)));
    assert!(matches!(parse_command("LIST"), Some(ClientCommand::Invalid)));
    assert!(parse_command("").is_none());
    assert!(parse_command("   \n").is_none());
    assert!(parse_command("send").is_none());
    assert!(parse_command("lease").is_none());
    assert!(parse_command("request cat.png").is_none());
}

#[test]
fn request_formatting() {
    assert_eq!(request_text("cat.png"), "Can I have cat.png?");
    assert_eq!(peer_address("10.0.0.2"), "10.0.0.2:1939");
}

#[test]
fn visits_of_one_route_leave_others_alone() {
    let mut counts = ViewCounts::new();
    counts.lease("a.png", 5);
    counts.lease("b.png", 2);
    for _ in 0..7 {
        counts.visit(&"/temp/a.png".to_string());
    }
    assert_eq!(counts.get(&"/temp/a.png".to_string()), Some(0));
    assert_eq!(counts.get(&"/temp/b.png".to_string()), Some(2));
    assert!(counts.visit(&"/temp/b.png".to_string()).shown);
}
