//! Entries of a directory listing, and their DIDL-Lite XML.

use vstd::prelude::*;
use crate::library::{clone_opt_str, opt_str, LibraryRow, RowView, rows_view};
use crate::path::{extension, file_name, get_file_name, get_name_extension, normalize, normalize_path};
use crate::text::{chars_of, extend_chars, extend_str, find_char, int_text, push_int, string_of};

verus! {

/// A file or directory of the library.
pub struct ResultItem {
    pub id: i64,
    pub is_dir: bool,
    pub parent_id: i64,
    pub child_count: i64,
    pub path: String,
    pub mime: Option<String>,
}

/// A result item as plain values.
pub struct ItemView {
    pub id: int,
    pub is_dir: bool,
    pub parent_id: int,
    pub child_count: int,
    pub path: Seq<char>,
    pub mime: Option<Seq<char>>,
}

/// Why an item has no DIDL-Lite entry.
#[derive(Debug, Clone, Copy, PartialEq, Eq, Structural)]
pub enum DidlError {
    /// The item's path has no file name.
    NoFileName,
    /// A file item without a MIME type.
    NoMime,
}

/// The URL path under which the server hands out the item with id `id`
/// and extension `ext`.
pub open spec fn media_url(id: int, ext: Seq<char>) -> Seq<char> {
    "/MediaItems/"@ + int_text(id) + "."@ + ext
}

/// The DIDL-Lite entry of an item; its title and extension come from the
/// normal form of its path.
pub open spec fn didl_spec(it: ItemView) -> Result<Seq<char>, DidlError> {
    match file_name(normalize(it.path)) {
        None => Err(DidlError::NoFileName),
        Some(name) => if it.is_dir {
            Ok(
                "<container id=\""@ + int_text(it.id) + "\" parentID=\""@ + int_text(it.parent_id)
                    + "\" childCount=\""@ + int_text(it.child_count) + "\" restricted=\"1\"><dc:title>"@
                    + name
                    + "</dc:title><upnp:class>object.container.storageFolder</upnp:class><upnp:storageUsed>-1</upnp:storageUsed></container>"@,
            )
        } else {
            match it.mime {
                None => Err(DidlError::NoMime),
                Some(mime) => {
                    let ext = match extension(normalize(it.path)) {
                        Some(e) => e,
                        None => Seq::empty(),
                    };
                    Ok(
                        "<item id=\""@ + int_text(it.id) + "\" parentID=\""@ + int_text(
                            it.parent_id,
                        ) + "\" restricted=\"1\"><dc:title>"@ + name
                            + "</dc:title><res protocolInfo=\"http-get:*:"@ + mime
                            + ":*\">http://192.168.1.3:8900"@ + media_url(it.id, ext)
                            + "</res><upnp:class>object.item.videoItem</upnp:class></item>"@,
                    )
                },
            }
        }
    }
}

impl ResultItem {
    /// The item as plain values.
    pub open spec fn view(&self) -> ItemView {
        ItemView {
            id: self.id as int,
            is_dir: self.is_dir,
            parent_id: self.parent_id as int,
            child_count: self.child_count as int,
            path: self.path@,
            mime: opt_str(self.mime),
        }
    }

    /// A copy of the item.
    pub fn copy(&self) -> (r: ResultItem)
        ensures
            r.view() == self.view(),
    {
        ResultItem {
            id: self.id,
            is_dir: self.is_dir,
            parent_id: self.parent_id,
            child_count: self.child_count,
            path: self.path.clone(),
            mime: clone_opt_str(&self.mime),
        }
    }

    /// The DIDL-Lite entry of the item: a `container` for a directory, an
    /// `item` with a `res` link for a file.  Refused when the path has no
    /// file name in normal form, or a file has no MIME type.
    pub fn to_didl(&self) -> (r: Result<String, DidlError>)
        ensures
            match r {
                Ok(s) => didl_spec(self.view()) == Ok::<Seq<char>, DidlError>(s@),
                Err(e) => didl_spec(self.view()) == Err::<Seq<char>, DidlError>(e),
            },
    {
        let raw = chars_of(self.path.as_str());
        let p = normalize_path(raw.as_slice());
        let name = match get_file_name(p.as_slice()) {
            Some(n) => n,
            None => return Err(DidlError::NoFileName),
        };
        let mut out: Vec<char> = Vec::new();
        if self.is_dir {
            extend_str(&mut out, "<container id=\"");
            push_int(&mut out, self.id);
            extend_str(&mut out, "\" parentID=\"");
            push_int(&mut out, self.parent_id);
            extend_str(&mut out, "\" childCount=\"");
            push_int(&mut out, self.child_count);
            extend_str(&mut out, "\" restricted=\"1\"><dc:title>");
            extend_chars(&mut out, name.as_slice());
            extend_str(
                &mut out,
                "</dc:title><upnp:class>object.container.storageFolder</upnp:class><upnp:storageUsed>-1</upnp:storageUsed></container>",
            );
            assert(out@ =~= didl_spec(self.view())->Ok_0);
        } else {
            let mime = match &self.mime {
                Some(m) => m,
                None => return Err(DidlError::NoMime),
            };
            let ext: Vec<char> = match get_file_name(p.as_slice()) {
                Some(n) => match get_name_extension(n.as_slice()) {
                    Some(e) => e,
                    None => Vec::new(),
                },
                None => Vec::new(),
            };
            assert(ext@ == match extension(normalize(self.path@)) {
                Some(e) => e,
                None => Seq::<char>::empty(),
            });
            extend_str(&mut out, "<item id=\"");
            push_int(&mut out, self.id);
            extend_str(&mut out, "\" parentID=\"");
            push_int(&mut out, self.parent_id);
            extend_str(&mut out, "\" restricted=\"1\"><dc:title>");
            extend_chars(&mut out, name.as_slice());
            extend_str(&mut out, "</dc:title><res protocolInfo=\"http-get:*:");
            extend_str(&mut out, mime.as_str());
            extend_str(&mut out, ":*\">http://192.168.1.3:8900");
            extend_str(&mut out, "/MediaItems/");
            push_int(&mut out, self.id);
            extend_str(&mut out, ".");
            extend_chars(&mut out, ext.as_slice());
            extend_str(&mut out, "</res><upnp:class>object.item.videoItem</upnp:class></item>");
            assert(out@ =~= didl_spec(self.view())->Ok_0);
        }
        Ok(string_of(out.as_slice()))
    }
}

/// Why a table row does not give a result item.
#[derive(Debug, Clone, Copy, PartialEq, Eq, Structural)]
pub enum RowError {
    /// The row is neither a well-formed file row nor a directory row.
    BadRow,
    /// The row's path holds a NUL character.
    BadPath,
}

/// The result item of a table row: a file row has `is_dir` 0, child count
/// 0, a parent and a MIME type; a directory row has `is_dir` 1 and a parent.
pub open spec fn item_of_row(r: RowView) -> Result<ItemView, RowError> {
    if r.is_dir == Some(0int) && r.child_count == 0 && r.parent_id is Some && r.mime is Some {
        if r.path.contains('\0') {
            Err(RowError::BadPath)
        } else {
            Ok(
                ItemView {
                    id: r.id,
                    is_dir: false,
                    parent_id: r.parent_id->Some_0,
                    child_count: 0,
                    path: r.path,
                    mime: r.mime,
                },
            )
        }
    } else if r.is_dir == Some(1int) && r.parent_id is Some {
        if r.path.contains('\0') {
            Err(RowError::BadPath)
        } else {
            Ok(
                ItemView {
                    id: r.id,
                    is_dir: true,
                    parent_id: r.parent_id->Some_0,
                    child_count: r.child_count,
                    path: r.path,
                    mime: None,
                },
            )
        }
    } else {
        Err(RowError::BadRow)
    }
}

/// The result item of a table row.
pub fn item_from_row(row: &LibraryRow) -> (r: Result<ResultItem, RowError>)
    ensures
        match r {
            Ok(it) => item_of_row(row.view()) == Ok::<ItemView, RowError>(it.view()),
            Err(e) => item_of_row(row.view()) == Err::<ItemView, RowError>(e),
        },
{
    let pc = chars_of(row.path.as_str());
    let has_nul = match find_char(pc.as_slice(), '\0') {
        Some(_) => true,
        None => false,
    };
    assert(has_nul == row.path@.contains('\0')) by {
        if row.path@.contains('\0') {
            let k = choose|k: int| 0 <= k < row.path@.len() && row.path@[k] == '\0';
            assert(pc@[k] == '\0');
        }
    }
    let file_row = row.is_dir == Some(0i64) && row.child_count == 0 && row.parent_id.is_some()
        && row.mime.is_some();
    let dir_row = row.is_dir == Some(1i64) && row.parent_id.is_some();
    if file_row {
        if has_nul {
            return Err(RowError::BadPath);
        }
        let pid = match row.parent_id {
            Some(p) => p,
            None => 0,
        };
        Ok(
            ResultItem {
                id: row.id,
                is_dir: false,
                parent_id: pid,
                child_count: 0,
                path: row.path.clone(),
                mime: clone_opt_str(&row.mime),
            },
        )
    } else if dir_row {
        if has_nul {
            return Err(RowError::BadPath);
        }
        let pid = match row.parent_id {
            Some(p) => p,
            None => 0,
        };
        Ok(
            ResultItem {
                id: row.id,
                is_dir: true,
                parent_id: pid,
                child_count: row.child_count,
                path: row.path.clone(),
                mime: None,
            },
        )
    } else {
        Err(RowError::BadRow)
    }
}

/// The views of a list of items.
pub open spec fn items_view(items: Seq<ResultItem>) -> Seq<ItemView> {
    items.map_values(|it: ResultItem| it.view())
}

/// The items of a list of rows, in order, or the first row's error.
pub open spec fn items_of_rows(rows: Seq<RowView>) -> Result<Seq<ItemView>, RowError>
    decreases rows.len(),
{
    if rows.len() == 0 {
        Ok(Seq::empty())
    } else {
        match items_of_rows(rows.drop_last()) {
            Err(e) => Err(e),
            Ok(prev) => match item_of_row(rows.last()) {
                Err(e) => Err(e),
                Ok(it) => Ok(prev.push(it)),
            },
        }
    }
}

/// Walks the rows of a query result, giving a result item per row.
pub struct ResultItemIterator {
    rows: Vec<LibraryRow>,
    pos: usize,
}

impl ResultItemIterator {
    #[verifier::type_invariant]
    spec fn wf(self) -> bool {
        self.pos <= self.rows@.len()
    }

    /// The rows still to be read.
    pub closed spec fn remaining(&self) -> Seq<RowView> {
        rows_view(self.rows@).skip(self.pos as int)
    }

    /// A walk over `rows`, from the first.
    pub fn new(rows: Vec<LibraryRow>) -> (r: ResultItemIterator)
        ensures
            r.remaining() == rows_view(rows@),
    {
        let r = ResultItemIterator { rows, pos: 0 };
        assert(rows_view(r.rows@).skip(0) == rows_view(r.rows@));
        r
    }

    /// The item of the next row, if any row is left.
    pub fn next(&mut self) -> (r: Option<Result<ResultItem, RowError>>)
        ensures
            old(self).remaining().len() == 0 ==> r is None && final(self).remaining()
                == old(self).remaining(),
            old(self).remaining().len() > 0 ==> {
                &&& final(self).remaining() == old(self).remaining().drop_first()
                &&& match r {
                    Some(Ok(it)) => item_of_row(old(self).remaining()[0]) == Ok::<
                        ItemView,
                        RowError,
                    >(it.view()),
                    Some(Err(e)) => item_of_row(old(self).remaining()[0]) == Err::<
                        ItemView,
                        RowError,
                    >(e),
                    None => false,
                }
            },
    {
        proof {
            use_type_invariant(&*self);
        }
        if self.pos >= self.rows.len() {
            return None;
        }
        let k = self.pos;
        let item = item_from_row(&self.rows[k]);
        self.pos = k + 1;
        assert(rows_view(self.rows@).skip(k + 1) =~= rows_view(self.rows@).skip(
            k as int,
        ).drop_first());
        Some(item)
    }

    /// The items of all remaining rows, in order; refused at the first row
    /// that gives none.
    pub fn collect(&mut self) -> (r: Result<Vec<ResultItem>, RowError>)
        ensures
            match r {
                Ok(items) => items_of_rows(old(self).remaining()) == Ok::<
                    Seq<ItemView>,
                    RowError,
                >(items_view(items@)),
                Err(e) => items_of_rows(old(self).remaining()) == Err::<Seq<ItemView>, RowError>(
                    e,
                ),
            },
    {
        let ghost all = self.remaining();
        let mut out: Vec<ResultItem> = Vec::new();
        let ghost mut done: int = 0;
        assert(all.take(0) =~= Seq::<RowView>::empty());
        assert(items_view(out@) =~= Seq::<ItemView>::empty());
        loop
            invariant
                0 <= done <= all.len(),
                all == old(self).remaining(),
                self.remaining() == all.skip(done),
                items_of_rows(all.take(done)) == Ok::<Seq<ItemView>, RowError>(items_view(out@)),
            decreases all.len() - done,
        {
            let ghost before = self.remaining();
            assert(before.len() == all.len() - done);
            assert(before.len() > 0 ==> before[0] == all[done]);
            match self.next() {
                None => {
                    assert(done == all.len());
                    assert(all.take(done) == all);
                    return Ok(out);
                },
                Some(Err(e)) => {
                    proof {
                        let next = all.take(done + 1);
                        assert(next.drop_last() == all.take(done));
                        assert(next.last() == before[0]);
                        lemma_items_err_extends(all, done + 1);
                    }
                    return Err(e);
                },
                Some(Ok(it)) => {
                    proof {
                        let next = all.take(done + 1);
                        assert(next.drop_last() == all.take(done));
                        assert(next.last() == before[0]);
                    }
                    let ghost old_out = out@;
                    out.push(it);
                    assert(items_view(out@) =~= items_view(old_out).push(it.view()));
                    proof {
                        done = done + 1;
                        assert(all.skip(done) == all.skip(done - 1).drop_first());
                    }
                },
            }
        }
    }
}

proof fn lemma_items_err_extends(rows: Seq<RowView>, k: int)
    requires
        0 <= k <= rows.len(),
        items_of_rows(rows.take(k)) is Err,
    ensures
        items_of_rows(rows) == items_of_rows(rows.take(k)),
    decreases rows.len() - k,
{
    if k < rows.len() {
        let next = rows.take(k + 1);
        assert(next.drop_last() == rows.take(k));
        lemma_items_err_extends(rows, k + 1);
    } else {
        assert(rows.take(k) == rows);
    }
}

} // verus!

verus! {

/// `d` holds `piece` somewhere.
pub open spec fn has_text(d: Seq<char>, piece: Seq<char>) -> bool {
    exists|a: Seq<char>, b: Seq<char>| d == a + piece + b
}

proof fn lemma_has_text(d: Seq<char>, a: Seq<char>, piece: Seq<char>, b: Seq<char>)
    requires
        d == a + piece + b,
    ensures
        has_text(d, piece),
{
}

/// A table row's result item keeps the row's id, parent, path and kind: a
/// file row gives a file item with the row's MIME type, a directory row a
/// directory item with the row's child count.
pub proof fn lemma_item_keeps_row(r: RowView)
    requires
        item_of_row(r) is Ok,
    ensures
        r.parent_id == Some(item_of_row(r)->Ok_0.parent_id),
        item_of_row(r)->Ok_0.id == r.id,
        item_of_row(r)->Ok_0.path == r.path,
        item_of_row(r)->Ok_0.is_dir <==> r.is_dir == Some(1int),
        !item_of_row(r)->Ok_0.is_dir ==> r.is_dir == Some(0int) && r.mime is Some
            && item_of_row(r)->Ok_0.mime == r.mime,
        item_of_row(r)->Ok_0.is_dir ==> item_of_row(r)->Ok_0.child_count == r.child_count,
{
}

/// An item's DIDL-Lite entry names the item's id and its parent's id, and
/// a file's entry carries the file's own MIME type in its `protocolInfo`.
pub proof fn lemma_didl_names(it: ItemView)
    requires
        didl_spec(it) is Ok,
    ensures
        has_text(didl_spec(it)->Ok_0, " id=\""@ + int_text(it.id) + "\""@),
        has_text(didl_spec(it)->Ok_0, " parentID=\""@ + int_text(it.parent_id) + "\""@),
        !it.is_dir ==> it.mime is Some && has_text(
            didl_spec(it)->Ok_0,
            "protocolInfo=\"http-get:*:"@ + it.mime->Some_0 + ":*\""@,
        ),
{
    let d = didl_spec(it)->Ok_0;
    let name = file_name(normalize(it.path))->Some_0;
    let q = "\""@;
    let idp = " id=\""@;
    let pp = " parentID=\""@;
    let ti = int_text(it.id);
    let tp = int_text(it.parent_id);
    reveal_strlit("\"");
    reveal_strlit(" id=\"");
    reveal_strlit(" parentID=\"");
    reveal_strlit("\" parentID=\"");
    let l2 = "\" parentID=\""@;
    assert(l2 =~= q + pp);
    if it.is_dir {
        reveal_strlit("<container id=\"");
        reveal_strlit("<container");
        reveal_strlit("\" childCount=\"");
        reveal_strlit(" childCount=\"");
        let l1 = "<container id=\""@;
        let l1a = "<container"@;
        let l3 = "\" childCount=\""@;
        let l3b = " childCount=\""@;
        assert(l1 =~= l1a + idp);
        assert(l3 =~= q + l3b);
        let tc = int_text(it.child_count);
        let tail = "\" restricted=\"1\"><dc:title>"@ + name
            + "</dc:title><upnp:class>object.container.storageFolder</upnp:class><upnp:storageUsed>-1</upnp:storageUsed></container>"@;
        assert(d == l1 + ti + l2 + tp + l3 + tc + tail);
        assert(d =~= (l1a) + (idp + ti + q) + (pp + tp + l3 + tc + tail));

        lemma_has_text(d, l1a, idp + ti + q, pp + tp + l3 + tc + tail);
        assert(d =~= (l1 + ti + q) + (pp + tp + q) + (l3b + tc + tail));

        lemma_has_text(d, l1 + ti + q, pp + tp + q, l3b + tc + tail);
    } else {
        let mime = it.mime->Some_0;
        let ext = match extension(normalize(it.path)) {
            Some(e) => e,
            None => Seq::empty(),
        };
        reveal_strlit("<item id=\"");
        reveal_strlit("<item");
        reveal_strlit("\" restricted=\"1\"><dc:title>");
        reveal_strlit(" restricted=\"1\"><dc:title>");
        reveal_strlit("</dc:title><res protocolInfo=\"http-get:*:");
        reveal_strlit("</dc:title><res ");
        reveal_strlit("protocolInfo=\"http-get:*:");
        reveal_strlit(":*\">http://192.168.1.3:8900");
        reveal_strlit(":*\"");
        reveal_strlit(">http://192.168.1.3:8900");
        let l1 = "<item id=\""@;
        let l1a = "<item"@;
        let l3 = "\" restricted=\"1\"><dc:title>"@;
        let l3b = " restricted=\"1\"><dc:title>"@;
        let l4 = "</dc:title><res protocolInfo=\"http-get:*:"@;
        let l4a = "</dc:title><res "@;
        let l4b = "protocolInfo=\"http-get:*:"@;
        let l5 = ":*\">http://192.168.1.3:8900"@;
        let l5a = ":*\""@;
        let l5b = ">http://192.168.1.3:8900"@;
        assert(l1 =~= l1a + idp);
        assert(l3 =~= q + l3b);
        assert(l4 =~= l4a + l4b);
        assert(l5 =~= l5a + l5b);
        let end = media_url(it.id, ext) + "</res><upnp:class>object.item.videoItem</upnp:class></item>"@;
        assert(d == l1 + ti + l2 + tp + l3 + name + l4 + mime + l5 + end);
        assert(d =~= (l1a) + (idp + ti + q) + (pp + tp + l3 + name + l4 + mime + l5 + end));

        lemma_has_text(d, l1a, idp + ti + q, pp + tp + l3 + name + l4 + mime + l5 + end);
        assert(d =~= (l1 + ti + q) + (pp + tp + q) + (l3b + name + l4 + mime + l5 + end));

        lemma_has_text(d, l1 + ti + q, pp + tp + q, l3b + name + l4 + mime + l5 + end);
        assert(d =~= (l1 + ti + l2 + tp + l3 + name + l4a) + (l4b + mime + l5a) + (l5b + end));

        lemma_has_text(d, l1 + ti + l2 + tp + l3 + name + l4a, l4b + mime + l5a, l5b + end);
    }
}

/// A row's listing names the row's own id and, as `parentID`, the id of
/// the folder the row lies in; a file row's listing carries the row's
/// MIME type.
pub proof fn lemma_row_listed_under_parent(r: RowView)
    requires
        item_of_row(r) is Ok,
        didl_spec(item_of_row(r)->Ok_0) is Ok,
    ensures
        has_text(didl_spec(item_of_row(r)->Ok_0)->Ok_0, " id=\""@ + int_text(r.id) + "\""@),
        has_text(
            didl_spec(item_of_row(r)->Ok_0)->Ok_0,
            " parentID=\""@ + int_text(r.parent_id->Some_0) + "\""@,
        ),
        r.is_dir == Some(0int) ==> has_text(
            didl_spec(item_of_row(r)->Ok_0)->Ok_0,
            "protocolInfo=\"http-get:*:"@ + r.mime->Some_0 + ":*\""@,
        ),
{
    lemma_item_keeps_row(r);
    lemma_didl_names(item_of_row(r)->Ok_0);
}

} // verus!
