use vstd::prelude::*;

use crate::decimal::dec_rep;
use crate::decimal::i32_to_decimal;
use crate::decimal::lemma_dec_rep_parse;
use crate::decimal::parse_i32;
use crate::decimal::spec_parse_i32;

verus! {

/// A location in the site: the two pages the router can show.
#[derive(Clone, Copy, PartialEq, Eq, Structural, Debug)]
pub enum Route {
    Home,
    Blog { id: i32 },
}

/// The path a route is written as in the address bar: the home page is "/",
/// and a blog page is "/blog/" followed by its id in decimal.
pub open spec fn path_of(r: Route) -> Seq<char> {
    match r {
        Route::Home => "/"@,
        Route::Blog { id } => "/blog/"@ + dec_rep(id as int),
    }
}

/// The route a path names, if any: "/" names the home page, "/blog/" followed
/// by an id segment names that blog page, and any other path matches no route.
pub open spec fn spec_parse_route(s: Seq<char>) -> Option<Route> {
    if s == "/"@ {
        Some(Route::Home)
    } else if "/blog/"@.is_prefix_of(s) {
        match spec_parse_i32(s.skip("/blog/"@.len() as int)) {
            Some(id) => Some(Route::Blog { id }),
            None => None,
        }
    } else {
        None
    }
}

/// Writes the path for a route, as a link to that route carries it.
pub fn route_to_path(r: &Route) -> (s: String)
    ensures
        s@ == path_of(*r),
{
    match r {
        Route::Home => String::from_str("/"),
        Route::Blog { id } => {
            let mut s = String::from_str("/blog/");
            let num = i32_to_decimal(*id);
            s.append(num.as_str());
            s
        },
    }
}

/// Dispatches a path the way the router does: the home page for "/", the
/// blog page whose id segment follows "/blog/", and no route otherwise.
pub fn parse_route(s: &str) -> (r: Option<Route>)
    ensures
        r == spec_parse_route(s@),
{
    proof {
        reveal_strlit("/");
        reveal_strlit("/blog/");
    }
    let len: usize = s.unicode_len();
    if len == 1 && s.get_char(0) == '/' {
        proof {
            assert(s@ =~= "/"@);
        }
        return Some(Route::Home);
    }
    proof {
        assert(s@ != "/"@) by {
            if s@ == "/"@ {
                assert(s@.len() == 1);
                assert(s@[0] == '/');
            }
        }
    }
    if len < 6 {
        proof {
            assert(!"/blog/"@.is_prefix_of(s@));
        }
        return None;
    }
    let p0: char = s.get_char(0);
    let p1: char = s.get_char(1);
    let p2: char = s.get_char(2);
    let p3: char = s.get_char(3);
    let p4: char = s.get_char(4);
    let p5: char = s.get_char(5);
    if !(p0 == '/' && p1 == 'b' && p2 == 'l' && p3 == 'o' && p4 == 'g' && p5 == '/') {
        proof {
            reveal_strlit("/blog/");
            assert(!"/blog/"@.is_prefix_of(s@)) by {
                if "/blog/"@.is_prefix_of(s@) {
                    assert(s@.subrange(0, 6) =~= "/blog/"@);
                    assert(s@.subrange(0, 6)[0] == "/blog/"@[0]);
                    assert(s@.subrange(0, 6)[1] == "/blog/"@[1]);
                    assert(s@.subrange(0, 6)[2] == "/blog/"@[2]);
                    assert(s@.subrange(0, 6)[3] == "/blog/"@[3]);
                    assert(s@.subrange(0, 6)[4] == "/blog/"@[4]);
                    assert(s@.subrange(0, 6)[5] == "/blog/"@[5]);
                    assert(s@[0] == '/');
                    assert(s@[1] == 'b');
                    assert(s@[2] == 'l');
                    assert(s@[3] == 'o');
                    assert(s@[4] == 'g');
                    assert(s@[5] == '/');
                }
            }
        }
        return None;
    }
    proof {
        assert("/blog/"@.is_prefix_of(s@)) by {
            assert(s@.subrange(0, 6) =~= "/blog/"@);
        }
    }
    let tail: &str = s.substring_char(6, len);
    let idres: Option<i32> = parse_i32(tail);
    proof {
        assert(tail@ =~= s@.skip("/blog/"@.len() as int));
    }
    match idres {
        Some(id) => Some(Route::Blog { id }),
        None => None,
    }
}

/// Writing a route's path and dispatching that path again lands on the same
/// route: every link the site builds goes to the page it names.
pub proof fn lemma_path_round_trip(r: Route)
    ensures
        spec_parse_route(path_of(r)) == Some(r),
{
    reveal_strlit("/");
    reveal_strlit("/blog/");
    match r {
        Route::Home => {
        },
        Route::Blog { id } => {
            let p = "/blog/"@ + dec_rep(id as int);
            lemma_dec_rep_parse(id);
            assert(p != "/"@);
            assert("/blog/"@.is_prefix_of(p)) by {
                assert(p.subrange(0, 6) =~= "/blog/"@);
            }
            assert(p.skip(6) =~= dec_rep(id as int));
        },
    }
}

/// Two different routes are never written as the same path.
pub proof fn lemma_path_injective(r1: Route, r2: Route)
    requires
        path_of(r1) == path_of(r2),
    ensures
        r1 == r2,
{
    lemma_path_round_trip(r1);
    lemma_path_round_trip(r2);
}

/// The targets of the navigation bar's two links: the home page and the
/// first blog page.
pub fn navbar_targets() -> (r: (Route, Route))
    ensures
        r.0 == Route::Home,
        r.1 == (Route::Blog { id: 1 }),
{
    (Route::Home, Route::Blog { id: 1 })
}

/// The target of the "Previous" link on the blog page with the given id.
pub fn blog_prev(id: i32) -> (r: Route)
    requires
        id > i32::MIN,
    ensures
        r == (Route::Blog { id: (id - 1) as i32 }),
{
    Route::Blog { id: id - 1 }
}

/// The target of the "Next" link on the blog page with the given id.
pub fn blog_next(id: i32) -> (r: Route)
    requires
        id < i32::MAX,
    ensures
        r == (Route::Blog { id: (id + 1) as i32 }),
{
    Route::Blog { id: id + 1 }
}

/// The heading the blog page shows for an id.
pub fn blog_heading(id: i32) -> (s: String)
    ensures
        s@ == "This is blog #"@ + dec_rep(id as int) + "!"@,
{
    let mut s = String::from_str("This is blog #");
    let num = i32_to_decimal(id);
    s.append(num.as_str());
    s.append("!");
    s
}

} // verus!
