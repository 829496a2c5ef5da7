use site_routes::Route;
use site_routes::blog_heading;
use site_routes::blog_next;
use site_routes::blog_prev;
use site_routes::navbar_targets;
use site_routes::parse_route;
use site_routes::route_to_path;

#[test]
fn parse_home() {
    assert_eq!(parse_route("/"), Some(Route::Home));
}

#[test]
fn parse_blog() {
    assert_eq!(parse_route("/blog/42"), Some(Route::Blog { id: 42 }));
}

#[test]
fn parse_blog_negative() {
    assert_eq!(parse_route("/blog/-3"), Some(Route::Blog { id: -3 }));
}

#[test]
fn parse_blog_plus_sign() {
    assert_eq!(parse_route("/blog/+7"), Some(Route::Blog { id: 7 }));
}

#[test]
fn parse_blog_leading_zeros() {
    assert_eq!(parse_route("/blog/007"), Some(Route::Blog { id: 7 }));
}

#[test]
fn parse_blog_zero() {
    assert_eq!(parse_route("/blog/0"), Some(Route::Blog { id: 0 }));
    assert_eq!(parse_route("/blog/-0"), Some(Route::Blog { id: 0 }));
}

#[test]
fn parse_blog_extremes() {
    assert_eq!(
        parse_route("/blog/2147483647"),
        Some(Route::Blog { id: i32::MAX })
    );
    assert_eq!(
        parse_route("/blog/-2147483648"),
        Some(Route::Blog { id: i32::MIN })
    );
}

#[test]
fn parse_blog_overflow() {
    assert_eq!(parse_route("/blog/2147483648"), None);
    assert_eq!(parse_route("/blog/-2147483649"), None);
    assert_eq!(parse_route("/blog/99999999999999999999"), None);
}

#[test]
fn parse_blog_empty_segment() {
    assert_eq!(parse_route("/blog/"), None);
}

#[test]
fn parse_blog_bad_segment() {
    assert_eq!(parse_route("/blog/x"), None);
    assert_eq!(parse_route("/blog/12x"), None);
    assert_eq!(parse_route("/blog/--1"), None);
    assert_eq!(parse_route("/blog/+"), None);
    assert_eq!(parse_route("/blog/-"), None);
    assert_eq!(parse_route("/blog/1 "), None);
    assert_eq!(parse_route("/blog/1/2"), None);
}

#[test]
fn parse_no_route() {
    assert_eq!(parse_route(""), None);
    assert_eq!(parse_route("/x"), None);
    assert_eq!(parse_route("/blog"), None);
    assert_eq!(parse_route("/Blog/1"), None);
    assert_eq!(parse_route("blog/1"), None);
}

#[test]
fn render_home() {
    assert_eq!(route_to_path(&Route::Home), "/");
}

#[test]
fn render_blog() {
    assert_eq!(route_to_path(&Route::Blog { id: 7 }), "/blog/7");
    assert_eq!(route_to_path(&Route::Blog { id: -5 }), "/blog/-5");
    assert_eq!(route_to_path(&Route::Blog { id: 0 }), "/blog/0");
    assert_eq!(route_to_path(&Route::Blog { id: 1234567 }), "/blog/1234567");
}

#[test]
fn render_blog_extremes() {
    assert_eq!(
        route_to_path(&Route::Blog { id: i32::MAX }),
        "/blog/2147483647"
    );
    assert_eq!(
        route_to_path(&Route::Blog { id: i32::MIN }),
        "/blog/-2147483648"
    );
}

#[test]
fn round_trip() {
    let routes = vec![
        Route::Home,
        Route::Blog { id: 0 },
        Route::Blog { id: 1 },
        Route::Blog { id: -1 },
        Route::Blog { id: 90210 },
        Route::Blog { id: i32::MIN },
        Route::Blog { id: i32::MAX },
    ];
    for r in routes {
        let path = route_to_path(&r);
        assert_eq!(parse_route(&path), Some(r));
    }
}

#[test]
fn navbar_links() {
    let (home, blog) = navbar_targets();
    assert_eq!(home, Route::Home);
    assert_eq!(blog, Route::Blog { id: 1 });
}

#[test]
fn blog_siblings() {
    assert_eq!(blog_prev(5), Route::Blog { id: 4 });
    assert_eq!(blog_next(5), Route::Blog { id: 6 });
    assert_eq!(blog_prev(i32::MAX), Route::Blog { id: i32::MAX - 1 });
    assert_eq!(blog_next(i32::MIN), Route::Blog { id: i32::MIN + 1 });
}

#[test]
fn blog_headline() {
    assert_eq!(blog_heading(3), "This is blog #3!");
    assert_eq!(blog_heading(-12), "This is blog #-12!");
}
