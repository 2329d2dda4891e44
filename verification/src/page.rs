//! Page assembly: feeds the directory snapshot and the discovered endpoints
//! into the page's templates and renders the single HTML document of the
//! listing page. Loopback endpoints never reach the QR or connection rows.

use vstd::prelude::*;
use crate::endpoints::{spec_ip_text, format_ip, ListenUrl};
use crate::listing::FileEntry;
use crate::template::{
    binding_views, spec_render, spec_render_many, Bindings, Template, TemplateError,
};

verus! {

/// The four templates of the listing page: the page shell and one template
/// per repeated row kind.
pub struct Templates {
    pub root: Template,
    pub file_list_item: Template,
    pub qr_code_item: Template,
    pub connection_item: Template,
}

/// The bindings of one file row: `file_name` and `size`.
pub open spec fn spec_file_bindings(f: FileEntry) -> Map<Seq<char>, Seq<char>> {
    Map::empty().insert("file_name"@, f.name@).insert("size"@, f.size@)
}

/// One binding set per file, in order.
pub open spec fn spec_file_rows(files: Seq<FileEntry>) -> Seq<Map<Seq<char>, Seq<char>>>
    decreases files.len(),
{
    if files.len() == 0 {
        Seq::empty()
    } else {
        spec_file_rows(files.drop_last()).push(spec_file_bindings(files.last()))
    }
}

/// The bindings of one QR row: `svg`, the endpoint's inline image.
pub open spec fn spec_qr_bindings(u: ListenUrl) -> Map<Seq<char>, Seq<char>> {
    Map::empty().insert("svg"@, u.qr_code_svg@)
}

/// One binding set per non-loopback endpoint, in order.
pub open spec fn spec_qr_rows(urls: Seq<ListenUrl>) -> Seq<Map<Seq<char>, Seq<char>>>
    decreases urls.len(),
{
    if urls.len() == 0 {
        Seq::empty()
    } else {
        let rest = spec_qr_rows(urls.drop_last());
        if !urls.last().is_loopback {
            rest.push(spec_qr_bindings(urls.last()))
        } else {
            rest
        }
    }
}

/// The bindings of one connection row: `interface` and the address text
/// `ip`.
pub open spec fn spec_conn_bindings(u: ListenUrl) -> Map<Seq<char>, Seq<char>> {
    Map::empty().insert("interface"@, u.interface@).insert("ip"@, spec_ip_text(u.ip))
}

/// One binding set per non-loopback endpoint, in order.
pub open spec fn spec_conn_rows(urls: Seq<ListenUrl>) -> Seq<Map<Seq<char>, Seq<char>>>
    decreases urls.len(),
{
    if urls.len() == 0 {
        Seq::empty()
    } else {
        let rest = spec_conn_rows(urls.drop_last());
        if !urls.last().is_loopback {
            rest.push(spec_conn_bindings(urls.last()))
        } else {
            rest
        }
    }
}

/// The bindings of the page shell: the three pre-rendered listings.
pub open spec fn spec_root_bindings(fl: Seq<char>, ql: Seq<char>, cl: Seq<char>) -> Map<
    Seq<char>,
    Seq<char>,
> {
    Map::empty().insert("file_listing"@, fl).insert("qr_code_listing"@, ql).insert(
        "connection_listing"@,
        cl,
    )
}

/// The listing page: the file rows, QR rows and connection rows are each
/// rendered and concatenated, then spliced into the page shell. Fails with
/// the first unbound placeholder name, in that order.
pub open spec fn spec_assemble(
    t_root: (Seq<char>, Seq<(int, Seq<char>, bool)>),
    t_file: (Seq<char>, Seq<(int, Seq<char>, bool)>),
    t_qr: (Seq<char>, Seq<(int, Seq<char>, bool)>),
    t_conn: (Seq<char>, Seq<(int, Seq<char>, bool)>),
    files: Seq<FileEntry>,
    urls: Seq<ListenUrl>,
) -> Result<Seq<char>, Seq<char>> {
    match spec_render_many(t_file, spec_file_rows(files)) {
        Err(n) => Err(n),
        Ok(fl) => match spec_render_many(t_qr, spec_qr_rows(urls)) {
            Err(n) => Err(n),
            Ok(ql) => match spec_render_many(t_conn, spec_conn_rows(urls)) {
                Err(n) => Err(n),
                Ok(cl) => spec_render(t_root, spec_root_bindings(fl, ql, cl)),
            },
        },
    }
}

/// Renders the listing page from the templates, the directory snapshot and
/// the discovered endpoints, as [`spec_assemble`] gives it.
pub fn assemble_page(templates: &Templates, files: &Vec<FileEntry>, urls: &Vec<ListenUrl>) -> (r:
    Result<String, TemplateError>)
    ensures
        (match (r, spec_assemble(
            templates.root@,
            templates.file_list_item@,
            templates.qr_code_item@,
            templates.connection_item@,
            files@,
            urls@,
        )) {
            (Ok(s), Ok(t)) => s@ == t,
            (Err(TemplateError::UndefinedVariable(v)), Err(n)) => v@ == n,
            _ => false,
        }),
{
    let nf = files.len();
    let mut frows: Vec<Bindings> = Vec::new();
    let mut i: usize = 0;
    proof {
        assert(files@.take(0) =~= Seq::<FileEntry>::empty());
    }
    while i < nf
        invariant
            0 <= i <= nf,
            nf == files@.len(),
            binding_views(frows@) == spec_file_rows(files@.take(i as int)),
        decreases nf - i,
    {
        let f = &files[i];
        let mut b = Bindings::new();
        b.insert("size", f.size.as_str());
        b.insert("file_name", f.name.as_str());
        let ghost old_rows = frows@;
        proof {
            reveal_strlit("file_name");
            reveal_strlit("size");
            assert("file_name"@.len() == 9);
            assert("size"@.len() == 4);
            assert(b@ =~~= spec_file_bindings(files@[i as int]));
        }
        frows.push(b);
        proof {
            assert(frows@.drop_last() =~= old_rows);
            assert(files@.take(i + 1 as int).drop_last() =~= files@.take(i as int));
        }
        i = i + 1;
    }
    proof {
        assert(files@.take(nf as int) =~= files@);
    }
    let nu = urls.len();
    let mut qrows: Vec<Bindings> = Vec::new();
    let mut crows: Vec<Bindings> = Vec::new();
    let mut j: usize = 0;
    proof {
        assert(urls@.take(0) =~= Seq::<ListenUrl>::empty());
    }
    while j < nu
        invariant
            0 <= j <= nu,
            nu == urls@.len(),
            binding_views(qrows@) == spec_qr_rows(urls@.take(j as int)),
            binding_views(crows@) == spec_conn_rows(urls@.take(j as int)),
        decreases nu - j,
    {
        let u = &urls[j];
        proof {
            assert(urls@.take(j + 1 as int).drop_last() =~= urls@.take(j as int));
        }
        if !u.is_loopback {
            let mut qb = Bindings::new();
            qb.insert("svg", u.qr_code_svg.as_str());
            let mut cb = Bindings::new();
            let ip_text = format_ip(&u.ip);
            cb.insert("ip", ip_text.as_str());
            cb.insert("interface", u.interface.as_str());
            proof {
                reveal_strlit("interface");
                reveal_strlit("ip");
                assert("interface"@.len() == 9);
                assert("ip"@.len() == 2);
                assert(qb@ =~~= spec_qr_bindings(urls@[j as int]));
                assert(cb@ =~~= spec_conn_bindings(urls@[j as int]));
            }
            let ghost old_q = qrows@;
            qrows.push(qb);
            let ghost old_c = crows@;
            crows.push(cb);
            proof {
                assert(qrows@.drop_last() =~= old_q);
                assert(crows@.drop_last() =~= old_c);
            }
        }
        j = j + 1;
    }
    proof {
        assert(urls@.take(nu as int) =~= urls@);
    }
    let file_listing = match templates.file_list_item.render_many(&frows) {
        Err(e) => {
            return Err(e);
        },
        Ok(s) => s,
    };
    let qr_code_listing = match templates.qr_code_item.render_many(&qrows) {
        Err(e) => {
            return Err(e);
        },
        Ok(s) => s,
    };
    let connection_listing = match templates.connection_item.render_many(&crows) {
        Err(e) => {
            return Err(e);
        },
        Ok(s) => s,
    };
    let mut rb = Bindings::new();
    rb.insert("connection_listing", connection_listing.as_str());
    rb.insert("qr_code_listing", qr_code_listing.as_str());
    rb.insert("file_listing", file_listing.as_str());
    proof {
        reveal_strlit("file_listing");
        reveal_strlit("qr_code_listing");
        reveal_strlit("connection_listing");
        assert("file_listing"@.len() == 12);
        assert("qr_code_listing"@.len() == 15);
        assert("connection_listing"@.len() == 18);
        assert(rb@ =~~= spec_root_bindings(file_listing@, qr_code_listing@, connection_listing@));
    }
    templates.root.render(&rb)
}

} // verus!
