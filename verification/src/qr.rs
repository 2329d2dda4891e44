//! QR rendering: each connection URL is rendered once, at startup, into a
//! scalable vector image fragment that the page embeds inline.

use vstd::prelude::*;

verus! {

/// The SVG image fragment the QR renderer produces for a text: everything
/// after the XML declaration, `<svg ...>...</svg>`.
pub uninterp spec fn qr_svg_fragment(url: Seq<char>) -> Seq<char>;

/// Whether the QR encoder accepts a text: it refuses exactly the texts that
/// exceed every QR code version's capacity, a function of the text alone.
pub uninterp spec fn qr_accepts(url: Seq<char>) -> bool;

/// The XML declaration the SVG renderer writes before the image.
pub open spec fn svg_xml_preamble() -> Seq<char> {
    "<?xml version=\"1.0\" standalone=\"yes\"?>"@
}

/// Relies on `qrcode::QrCode::new` and its SVG renderer: the rendered image
/// depends on the encoded text alone, and the output is the XML declaration
/// followed by the `<svg ...>...</svg>` fragment. Whether the encoder
/// succeeds also depends on the text alone: it returns an error exactly when
/// the data is too long to fit any QR code version, and then this wrapper
/// returns `None`.
#[verifier::external_body]
fn qr_render_xml(url: &str) -> (r: Option<String>)
    ensures
        r is Some <==> qr_accepts(url@),
        r matches Some(x) ==> x@ == svg_xml_preamble() + qr_svg_fragment(url@),
{
    let code = match qrcode::QrCode::new(url) {
        Ok(c) => c,
        Err(_) => return None,
    };
    let xml = code
        .render()
        .min_dimensions(200, 200)
        .dark_color(qrcode::render::svg::Color("#000000"))
        .light_color(qrcode::render::svg::Color("#ffffff"))
        .quiet_zone(false)
        .build();
    Some(xml)
}

/// The QR code of `url` as an inline SVG fragment: the renderer's output
/// with the XML declaration stripped, so the image can stand inside an HTML
/// document. `None` exactly when the encoder refuses the text.
pub fn render_url_svg(url: &str) -> (r: Option<String>)
    ensures
        r is Some <==> qr_accepts(url@),
        r matches Some(s) ==> s@ == qr_svg_fragment(url@),
{
    match qr_render_xml(url) {
        None => None,
        Some(xml) => {
            let pre = "<?xml version=\"1.0\" standalone=\"yes\"?>";
            let plen = pre.unicode_len();
            let n = xml.as_str().unicode_len();
            proof {
                assert(pre@ == svg_xml_preamble());
                assert(xml@.len() == plen + qr_svg_fragment(url@).len());
            }
            let frag = xml.as_str().substring_char(plen, n);
            proof {
                assert(xml@.subrange(plen as int, n as int) =~= qr_svg_fragment(url@));
            }
            Some(String::from_str(frag))
        },
    }
}

} // verus!
