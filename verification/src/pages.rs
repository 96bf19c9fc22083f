//! The pages of a client's image website: the gallery of shared images,
//! and the page that shows one leased image.

use vstd::prelude::*;
use crate::text::{chars_of, digits, last_segment, last_segment_of, push_digits, push_range, push_str, string_from_chars};

verus! {

pub const VIEW_PAGE_HEAD: &'static str = "\n                <html>\n                    <head>\n                        <style>\n                            img {\n                                width: 1000px;\n                                height: 1000px;\n                                object-fit: cover;\n                            }\n                            a {\n                                text-decoration: none;\n                                color: #fff;\n                                background-color: #3498db;\n                                padding: 8px 16px;\n                                border-radius: 4px;\n                                transition: background-color 0.3s ease-in-out;\n                            }\n\n                            a:hover {\n                                background-color: #2980b9;\n                            }\n\n                        </style>\n                    </head>\n                    <body>\n                        <img src=\"";

pub const VIEW_PAGE_AFTER_IMAGE: &'static str = "\" />\n                        <p>";

pub const VIEW_PAGE_AFTER_COUNT: &'static str = "</p>\n                        <a href=\"";

pub const VIEW_PAGE_TAIL: &'static str = "\">Request Image</a>\n                    </body>\n                </html>\n                 ";

pub const GALLERY_HEAD: &'static str = "\n            <html>\n                <head>\n                    <style>\n                        body {\n                            font-family: 'Arial', sans-serif;\n                            background-color: #f0f0f0;\n                            margin: 0;\n                            padding: 20px;\n                        }\n\n                        #grid {\n                            display: grid;\n                            grid-template-columns: repeat(auto-fill, minmax(200px, 1fr));\n                            grid-gap: 50px;\n                        }\n\n                        .image-container {\n                            position: relative;\n                            overflow: hidden;\n                            border-radius: 8px;\n                            box-shadow: 0 4px 8px rgba(0, 0, 0, 0.1);\n                        }\n\n                        img {\n                            width: 100%;\n                            height: 100%;\n                            object-fit: cover;\n                            filter: grayscale(30%) blur(5px);\n                            transition: transform 0.3s ease-in-out;\n                        }\n\n                        .image-container:hover img {\n                            transform: scale(1.1);\n                        }\n\n                        .overlay {\n                            position: absolute;\n                            top: 0;\n                            left: 0;\n                            width: 100%;\n                            height: 100%;\n                            display: flex;\n                            flex-direction: column;\n                            justify-content: center;\n                            align-items: center;\n                            opacity: 0;\n                            background: rgba(0, 0, 0, 0.5);\n                            color: #fff;\n                            border-radius: 8px;\n                            transition: opacity 0.3s ease-in-out;\n                        }\n\n                        .image-container:hover .overlay {\n                            opacity: 1;\n                        }\n\n                        p {\n                            margin: 10px 0;\n                            font-size: 14px;\n                        }\n\n                        a {\n                            text-decoration: none;\n                            color: #fff;\n                            background-color: #3498db;\n                            padding: 8px 16px;\n                            border-radius: 4px;\n                            transition: background-color 0.3s ease-in-out;\n                        }\n\n                        a:hover {\n                            background-color: #2980b9;\n                        }\n                    </style>\n                </head>\n                <body>\n                    <div id=\"grid\">\n            ";

pub const GALLERY_ITEM_HEAD: &'static str = "<div>\n               <img src=\"/static/";

pub const GALLERY_ITEM_AFTER_IMAGE: &'static str = "\" />  \n               <p>";

pub const GALLERY_ITEM_AFTER_NAME: &'static str = "</p>\n               <a href=\"";

pub const GALLERY_ITEM_TAIL: &'static str = "\">Request Image</a> \n               </div>";

pub const GALLERY_TAIL: &'static str = "</div></body></html>";

/// The page for one image: the picture at `image_path`, the views left
/// before the lease runs out, and a link to view it again at
/// `/temp/<file_name>`.
pub open spec fn view_page_html(image_path: Seq<char>, remaining: u32, file_name: Seq<char>) -> Seq<char> {
    VIEW_PAGE_HEAD@ + image_path + VIEW_PAGE_AFTER_IMAGE@ + "Views Remaining: "@ + digits(remaining as nat)
        + VIEW_PAGE_AFTER_COUNT@ + "/temp/"@ + file_name + VIEW_PAGE_TAIL@
}

/// One tile of the gallery: the blurred image, its file name and a link to
/// request it.
pub open spec fn gallery_tile(img: Seq<char>) -> Seq<char> {
    GALLERY_ITEM_HEAD@ + img + GALLERY_ITEM_AFTER_IMAGE@ + last_segment(img)
        + GALLERY_ITEM_AFTER_NAME@ + "/temp/"@ + last_segment(img) + GALLERY_ITEM_TAIL@
}

/// The tiles of the images, in order.
pub open spec fn gallery_tiles(imgs: Seq<Seq<char>>) -> Seq<char>
    decreases imgs.len(),
{
    if imgs.len() == 0 {
        Seq::empty()
    } else {
        gallery_tiles(imgs.drop_last()) + gallery_tile(imgs.last())
    }
}

/// Law (one tile per image): the tiles of two runs of images, one after
/// the other, are the tiles of each in turn; one image gives its own tile.
pub proof fn lemma_gallery_tiles_concat(a: Seq<Seq<char>>, b: Seq<Seq<char>>, x: Seq<char>)
    ensures
        gallery_tiles(a + b) == gallery_tiles(a) + gallery_tiles(b),
        gallery_tiles(seq![x]) == gallery_tile(x),
    decreases b.len(),
{
    assert(seq![x].drop_last() =~= Seq::<Seq<char>>::empty());
    assert(seq![x].last() == x);
    assert(gallery_tiles(Seq::<Seq<char>>::empty()) == Seq::<char>::empty());
    assert(Seq::<char>::empty() + gallery_tile(x) =~= gallery_tile(x));
    if b.len() == 0 {
        assert(a + b =~= a);
        assert(gallery_tiles(a) + gallery_tiles(b) =~= gallery_tiles(a));
    } else {
        lemma_gallery_tiles_concat(a, b.drop_last(), x);
        assert((a + b).drop_last() =~= a + b.drop_last());
        assert((a + b).last() == b.last());
        assert(gallery_tiles(a) + gallery_tiles(b) =~= (gallery_tiles(a) + gallery_tiles(b.drop_last()))
            + gallery_tile(b.last()));
    }
}

/// The gallery page.
pub open spec fn gallery_html(imgs: Seq<Seq<char>>) -> Seq<char> {
    GALLERY_HEAD@ + gallery_tiles(imgs) + GALLERY_TAIL@
}

/// The texts of a vector of strings.
pub open spec fn string_views(v: Seq<String>) -> Seq<Seq<char>> {
    v.map_values(|s: String| s@)
}

fn push_string(out: &mut Vec<char>, s: &String)
    ensures
        final(out)@ == old(out)@ + s@,
{
    push_str(out, s.as_str());
}

/// Renders the page for one image.
pub fn render_view_page(image_path: &String, remaining: u32, file_name: &String) -> (html: String)
    ensures
        html@ == view_page_html(image_path@, remaining, file_name@),
{
    let mut out: Vec<char> = Vec::new();
    push_str(&mut out, VIEW_PAGE_HEAD);
    push_string(&mut out, image_path);
    push_str(&mut out, VIEW_PAGE_AFTER_IMAGE);
    push_str(&mut out, "Views Remaining: ");
    push_digits(&mut out, remaining as u64);
    push_str(&mut out, VIEW_PAGE_AFTER_COUNT);
    push_str(&mut out, "/temp/");
    push_string(&mut out, file_name);
    push_str(&mut out, VIEW_PAGE_TAIL);
    assert(out@ =~= view_page_html(image_path@, remaining, file_name@));
    string_from_chars(out.as_slice())
}

/// Renders the gallery of the given images.
pub fn render_gallery(images: &Vec<String>) -> (html: String)
    ensures
        html@ == gallery_html(string_views(images@)),
{
    let ghost imgs = string_views(images@);
    let mut out: Vec<char> = Vec::new();
    push_str(&mut out, GALLERY_HEAD);
    let mut i: usize = 0;
    assert(imgs.take(0) =~= Seq::<Seq<char>>::empty());
    while i < images.len()
        invariant
            i <= images@.len(),
            imgs == string_views(images@),
            out@ == GALLERY_HEAD@ + gallery_tiles(imgs.take(i as int)),
        decreases images@.len() - i,
    {
        let img = chars_of(images[i].as_str());
        let name = last_segment_of(&img);
        let ghost before = out@;
        push_str(&mut out, GALLERY_ITEM_HEAD);
        push_range(&mut out, &img, 0, img.len());
        push_str(&mut out, GALLERY_ITEM_AFTER_IMAGE);
        push_range(&mut out, &name, 0, name.len());
        push_str(&mut out, GALLERY_ITEM_AFTER_NAME);
        push_str(&mut out, "/temp/");
        push_range(&mut out, &name, 0, name.len());
        push_str(&mut out, GALLERY_ITEM_TAIL);
        proof {
            assert(img@.subrange(0, img@.len() as int) =~= img@);
            assert(name@.subrange(0, name@.len() as int) =~= name@);
            assert(imgs[i as int] == img@);
            let t = imgs.take(i + 1);
            assert(t.drop_last() =~= imgs.take(i as int));
            assert(t.last() == img@);
            assert(out@ =~= before + gallery_tile(img@));
        }
        i = i + 1;
    }
    push_str(&mut out, GALLERY_TAIL);
    assert(imgs.take(images@.len() as int) =~= imgs);
    string_from_chars(out.as_slice())
}

} // verus!
