//! Renders a normalized `PackageCollection` as markdown: a table of contents
//! with anchor links, and a catalog of the full license texts, plus a narrow
//! heuristic that extracts a copyright note from a lone MIT license text.

use vstd::prelude::*;

use crate::converter;
use crate::converter::opt_text_view;
use crate::text::copyright_marker;
use crate::text::expand_escapes;
use crate::text::expand_of;
use crate::text::line_has_copyright_marker;
use crate::text::line_views;
use crate::text::lines_of;
use crate::text::seq_contains;
use crate::text::slug_of;
use crate::text::slugify;
use crate::text::split_lines;
use crate::text::str_eq;
use crate::text::trim;
use crate::text::trim_of;

verus! {

/// One license of a package as the renderer sees it: identifier, resolved
/// text, and the anchor label its catalog section is headed by.
pub struct MdLicense {
    pub license: String,
    pub text: Option<String>,
    pub link_anchor: Option<String>,
}

/// One package as the renderer sees it.
pub struct MdItem {
    pub package_name: String,
    pub copyright_note: Option<String>,
    pub link_to_project: Option<String>,
    pub licenses: Vec<MdLicense>,
}

/// Rendering options. `fail_on_missing_licenses` is acted on by the caller
/// before rendering; `join_similar_licenses` is reserved, identical license
/// texts are always rendered separately.
pub struct MdConfig {
    pub fail_on_missing_licenses: bool,
    pub join_similar_licenses: bool,
}

/// One prepared item of the writer.
pub struct MdWriterItem {
    pub md_item: MdItem,
}

/// The markdown writer: prepared once from a collection, then able to render
/// the table of contents and the license catalog any number of times.
pub struct MdWriter {
    writer_items: Vec<MdWriterItem>,
    md_config: MdConfig,
}

/// Mathematical model of a renderer license.
pub ghost struct MdLicenseModel {
    pub license: Seq<char>,
    pub text: Option<Seq<char>>,
    pub link_anchor: Option<Seq<char>>,
}

/// Mathematical model of a renderer item.
pub ghost struct MdItemModel {
    pub package_name: Seq<char>,
    pub copyright_note: Option<Seq<char>>,
    pub link_to_project: Option<Seq<char>>,
    pub licenses: Seq<MdLicenseModel>,
}

impl View for MdLicense {
    type V = MdLicenseModel;

    open spec fn view(&self) -> MdLicenseModel {
        MdLicenseModel {
            license: self.license@,
            text: opt_text_view(self.text),
            link_anchor: opt_text_view(self.link_anchor),
        }
    }
}

/// The views of a sequence of renderer licenses.
pub open spec fn md_license_views(ls: Seq<MdLicense>) -> Seq<MdLicenseModel> {
    ls.map_values(|l: MdLicense| l@)
}

impl View for MdItem {
    type V = MdItemModel;

    open spec fn view(&self) -> MdItemModel {
        MdItemModel {
            package_name: self.package_name@,
            copyright_note: opt_text_view(self.copyright_note),
            link_to_project: opt_text_view(self.link_to_project),
            licenses: md_license_views(self.licenses@),
        }
    }
}

impl View for MdWriter {
    type V = Seq<MdItemModel>;

    closed spec fn view(&self) -> Seq<MdItemModel> {
        self.writer_items@.map_values(|w: MdWriterItem| w.md_item@)
    }
}

impl Clone for MdLicense {
    /// Cloning keeps identifier, text and anchor label.
    fn clone(&self) -> (r: Self)
        ensures
            r@ == self@,
    {
        MdLicense {
            license: self.license.clone(),
            text: match &self.text {
                Some(t) => Some(t.clone()),
                None => None,
            },
            link_anchor: match &self.link_anchor {
                Some(a) => Some(a.clone()),
                None => None,
            },
        }
    }
}

/// Clone a vector of renderer licenses, keeping its view.
fn clone_md_licenses(ls: &Vec<MdLicense>) -> (r: Vec<MdLicense>)
    ensures
        md_license_views(r@) == md_license_views(ls@),
{
    let mut out: Vec<MdLicense> = Vec::new();
    let n = ls.len();
    let mut i: usize = 0;
    while i < n
        invariant
            i <= n,
            n == ls@.len(),
            out@.len() == i,
            forall|k: int| 0 <= k < i ==> out@[k]@ == ls@[k]@,
        decreases n - i,
    {
        out.push(ls[i].clone());
        i = i + 1;
    }
    proof {
        assert forall|k: int| 0 <= k < n implies #[trigger] md_license_views(out@)[k]
            == md_license_views(ls@)[k] by {
            assert(out@[k]@ == ls@[k]@);
        }
        assert(md_license_views(out@) =~= md_license_views(ls@));
    }
    out
}

impl Clone for MdItem {
    /// Cloning keeps every field of the item.
    fn clone(&self) -> (r: Self)
        ensures
            r@ == self@,
    {
        MdItem {
            package_name: self.package_name.clone(),
            copyright_note: match &self.copyright_note {
                Some(t) => Some(t.clone()),
                None => None,
            },
            link_to_project: match &self.link_to_project {
                Some(t) => Some(t.clone()),
                None => None,
            },
            licenses: clone_md_licenses(&self.licenses),
        }
    }
}

impl MdWriterItem {
    /// Wrap a prepared item for the writer.
    fn from(md_item: &MdItem) -> (r: Self)
        ensures
            r.md_item@ == md_item@,
    {
        MdWriterItem { md_item: md_item.clone() }
    }
}

// ---------------------------------------------------------------------------
// The preprocessing pipeline, as specification
// ---------------------------------------------------------------------------

/// The anchor label of a license within a package: visible section heading
/// and basis of the anchor fragment.
pub open spec fn anchor_label_of(package: Seq<char>, license: Seq<char>) -> Seq<char> {
    license + " ("@ + package + ")"@
}

/// The renderer license a normalized license record maps to.
pub open spec fn md_license_of(package_name: Seq<char>, l: converter::LicenseModel)
    -> MdLicenseModel {
    MdLicenseModel {
        license: l.license,
        text: l.text,
        link_anchor: Some(anchor_label_of(package_name, l.license)),
    }
}

/// The renderer licenses of a package.
pub open spec fn md_licenses_of(p: converter::PackageModel) -> Seq<MdLicenseModel> {
    p.licenses.map_values(|l: converter::LicenseModel| md_license_of(p.name, l))
}

/// The licenses with identifier `MIT`, in order.
pub open spec fn mits_of(ls: Seq<MdLicenseModel>) -> Seq<MdLicenseModel>
    decreases ls.len(),
{
    if ls.len() == 0 {
        Seq::empty()
    } else {
        mits_of(ls.drop_last()) + (if ls.last().license == "MIT"@ {
            seq![ls.last()]
        } else {
            Seq::empty()
        })
    }
}

/// The lines that hold the copyright marker, in order.
pub open spec fn marker_lines_of(ls: Seq<Seq<char>>) -> Seq<Seq<char>>
    decreases ls.len(),
{
    if ls.len() == 0 {
        Seq::empty()
    } else {
        marker_lines_of(ls.drop_last()) + (if seq_contains(ls.last(), copyright_marker()) {
            seq![ls.last()]
        } else {
            Seq::empty()
        })
    }
}

/// The copyright note a license text yields: the trimmed line holding the
/// marker, provided exactly one line holds it.
pub open spec fn note_of_text(t: Seq<char>) -> Option<Seq<char>> {
    let m = marker_lines_of(lines_of(t));
    if m.len() == 1 {
        Some(trim_of(m[0]))
    } else {
        None
    }
}

/// The copyright note of a package's licenses: present exactly when there is
/// one single MIT license, its text is present, and exactly one line of that
/// text holds the copyright marker; the note is that line, trimmed.
pub open spec fn copyright_note_of(ls: Seq<MdLicenseModel>) -> Option<Seq<char>> {
    let mits = mits_of(ls);
    if mits.len() == 1 && mits[0].text is Some {
        note_of_text(mits[0].text->0)
    } else {
        None
    }
}

/// The renderer item a package maps to.
pub open spec fn md_item_of(p: converter::PackageModel) -> MdItemModel {
    MdItemModel {
        package_name: p.name,
        copyright_note: copyright_note_of(md_licenses_of(p)),
        link_to_project: p.link,
        licenses: md_licenses_of(p),
    }
}

/// The renderer items of a sequence of packages.
pub open spec fn md_items_of(ps: Seq<converter::PackageModel>) -> Seq<MdItemModel> {
    ps.map_values(|p: converter::PackageModel| md_item_of(p))
}

// ---------------------------------------------------------------------------
// Helper lemmas
// ---------------------------------------------------------------------------

/// Extending a prefix of licenses by a non-MIT one keeps its MIT entries;
/// by an MIT one, appends it.
proof fn lemma_mits_extend(ls: Seq<MdLicenseModel>, i: int)
    requires
        0 <= i < ls.len(),
    ensures
        mits_of(ls.subrange(0, i + 1)) == mits_of(ls.subrange(0, i)) + (if ls[i].license
            == "MIT"@ {
            seq![ls[i]]
        } else {
            Seq::<MdLicenseModel>::empty()
        }),
{
    let a = ls.subrange(0, i + 1);
    assert(a.drop_last() =~= ls.subrange(0, i));
    assert(a.last() == ls[i]);
}

/// Extending a prefix of lines by one without the marker keeps its marker
/// lines; by one with it, appends that line.
proof fn lemma_marker_lines_extend(ls: Seq<Seq<char>>, i: int)
    requires
        0 <= i < ls.len(),
    ensures
        marker_lines_of(ls.subrange(0, i + 1)) == marker_lines_of(ls.subrange(0, i)) + (
        if seq_contains(ls[i], copyright_marker()) {
            seq![ls[i]]
        } else {
            Seq::<Seq<char>>::empty()
        }),
{
    let a = ls.subrange(0, i + 1);
    assert(a.drop_last() =~= ls.subrange(0, i));
    assert(a.last() == ls[i]);
}

// ---------------------------------------------------------------------------
// The copyright heuristic
// ---------------------------------------------------------------------------

/// Attempt to extract the copyright note from the license texts: only a lone
/// MIT license with a present text whose lines hold the copyright marker
/// exactly once yields one.
fn guess_copyright_note(licenses: &Vec<MdLicense>) -> (r: Option<String>)
    ensures
        opt_text_view(r) == copyright_note_of(md_license_views(licenses@)),
{
    let ghost lsm = md_license_views(licenses@);
    let n = licenses.len();
    let mut count: usize = 0;
    let mut idx: usize = 0;
    let mut i: usize = 0;
    proof {
        assert(lsm.subrange(0, 0) =~= Seq::<MdLicenseModel>::empty());
    }
    while i < n
        invariant
            i <= n,
            n == licenses@.len(),
            lsm == md_license_views(licenses@),
            lsm.len() == n,
            count <= i,
            count == mits_of(lsm.subrange(0, i as int)).len(),
            count >= 1 ==> idx < i && mits_of(lsm.subrange(0, i as int))[0] == lsm[idx as int],
        decreases n - i,
    {
        proof {
            assert(lsm[i as int] == licenses@[i as int]@);
            lemma_mits_extend(lsm, i as int);
        }
        if str_eq(licenses[i].license.as_str(), "MIT") {
            if count == 0 {
                idx = i;
            }
            count = count + 1;
        }
        i = i + 1;
    }
    proof {
        assert(lsm.subrange(0, n as int) =~= lsm);
    }
    if count != 1 {
        return None;
    }
    proof {
        assert(mits_of(lsm)[0] == lsm[idx as int]);
    }
    let mit = &licenses[idx];
    let text = match &mit.text {
        Some(t) => t,
        None => {
            return None;
        },
    };
    let lines = split_lines(text.as_str());
    let ghost linesm = lines_of(text@);
    let m = lines.len();
    let mut lcount: usize = 0;
    let mut lidx: usize = 0;
    let mut j: usize = 0;
    proof {
        assert(linesm.subrange(0, 0) =~= Seq::<Seq<char>>::empty());
    }
    while j < m
        invariant
            j <= m,
            m == lines@.len(),
            linesm == lines_of(text@),
            line_views(lines@) == linesm,
            linesm.len() == m,
            lcount <= j,
            lcount == marker_lines_of(linesm.subrange(0, j as int)).len(),
            lcount >= 1 ==> lidx < j && marker_lines_of(linesm.subrange(0, j as int))[0]
                == linesm[lidx as int],
        decreases m - j,
    {
        proof {
            assert(linesm[j as int] == lines@[j as int]@);
            lemma_marker_lines_extend(linesm, j as int);
        }
        if line_has_copyright_marker(lines[j].as_str()) {
            if lcount == 0 {
                lidx = j;
            }
            lcount = lcount + 1;
        }
        j = j + 1;
    }
    proof {
        assert(linesm.subrange(0, m as int) =~= linesm);
    }
    if lcount == 1 {
        proof {
            assert(marker_lines_of(linesm)[0] == linesm[lidx as int]);
            assert(linesm[lidx as int] == lines@[lidx as int]@);
        }
        Some(trim(lines[lidx].as_str()))
    } else {
        None
    }
}

// ---------------------------------------------------------------------------
// Rendered text, as specification
// ---------------------------------------------------------------------------

/// A name, or a markdown link around it when a target is present.
pub open spec fn name_or_link_of(first: Seq<char>, second: Option<Seq<char>>) -> Seq<char> {
    match second {
        Some(u) => "["@ + first + "]("@ + u + ")"@,
        None => first,
    }
}

/// One license in the table-of-contents cell: the identifier, linked to its
/// anchor fragment when an anchor label is present.
pub open spec fn license_entry_of(l: MdLicenseModel) -> Seq<char> {
    name_or_link_of(
        l.license,
        match l.link_anchor {
            Some(a) => Some("#"@ + slug_of(a)),
            None => None,
        },
    )
}

/// The license cell of a table-of-contents row: the entries joined with `/`.
pub open spec fn toc_license_cell_of(ls: Seq<MdLicenseModel>) -> Seq<char>
    decreases ls.len(),
{
    if ls.len() == 0 {
        Seq::empty()
    } else if ls.len() == 1 {
        license_entry_of(ls[0])
    } else {
        toc_license_cell_of(ls.drop_last()) + "/"@ + license_entry_of(ls.last())
    }
}

/// The authors cell: the copyright note, or the empty string.
pub open spec fn note_cell_of(n: Option<Seq<char>>) -> Seq<char> {
    match n {
        Some(s) => s,
        None => Seq::empty(),
    }
}

/// One data row of the table of contents.
pub open spec fn toc_row_of(it: MdItemModel) -> Seq<char> {
    "| "@ + name_or_link_of(it.package_name, it.link_to_project) + " | "@ + toc_license_cell_of(
        it.licenses,
    ) + " | "@ + note_cell_of(it.copyright_note) + " |\n"@
}

/// The data rows of the table of contents, in collection order.
pub open spec fn toc_rows_of(items: Seq<MdItemModel>) -> Seq<char>
    decreases items.len(),
{
    if items.len() == 0 {
        Seq::empty()
    } else {
        toc_rows_of(items.drop_last()) + toc_row_of(items.last())
    }
}

/// The header rows of the table of contents.
pub open spec fn toc_header() -> Seq<char> {
    "| Library Name | License | Authors |\n|-|-|-|\n"@
}

/// The whole table of contents.
pub open spec fn toc_text_of(items: Seq<MdItemModel>) -> Seq<char> {
    toc_header() + toc_rows_of(items)
}

/// The heading of a catalog section: the anchor label, falling back to the
/// bare identifier.
pub open spec fn section_heading_of(l: MdLicenseModel) -> Seq<char> {
    match l.link_anchor {
        Some(a) => a,
        None => l.license,
    }
}

/// What a section's code block is expanded from: the stored text, or the
/// literal fallback.
pub open spec fn section_body_source_of(l: MdLicenseModel) -> Seq<char> {
    match l.text {
        Some(t) => t,
        None => "NOT FOUND\n"@,
    }
}

/// One catalog section: heading and the license text in a code block, with
/// literal backslash-n sequences expanded to real newlines.
pub open spec fn section_of(l: MdLicenseModel) -> Seq<char> {
    "\n## "@ + section_heading_of(l) + "\n\n```\n"@ + expand_of(section_body_source_of(l))
        + "```\n"@
}

/// The sections of a sequence of licenses.
pub open spec fn section_views_of(ls: Seq<MdLicenseModel>) -> Seq<Seq<char>> {
    ls.map_values(|l: MdLicenseModel| section_of(l))
}

/// All catalog sections, one per package-license pair in collection order.
pub open spec fn catalog_sections_of(items: Seq<MdItemModel>) -> Seq<Seq<char>>
    decreases items.len(),
{
    if items.len() == 0 {
        Seq::empty()
    } else {
        catalog_sections_of(items.drop_last()) + section_views_of(items.last().licenses)
    }
}

/// A sequence of texts, concatenated in order.
pub open spec fn concat_texts(ss: Seq<Seq<char>>) -> Seq<char>
    decreases ss.len(),
{
    if ss.len() == 0 {
        Seq::empty()
    } else {
        concat_texts(ss.drop_last()) + ss.last()
    }
}

/// The catalog's top-level heading.
pub open spec fn catalog_header() -> Seq<char> {
    "# Licenses of Third-Party Libraries\n"@
}

/// The whole license catalog.
pub open spec fn catalog_text_of(items: Seq<MdItemModel>) -> Seq<char> {
    catalog_header() + concat_texts(catalog_sections_of(items))
}

// ---------------------------------------------------------------------------
// More helper lemmas
// ---------------------------------------------------------------------------

/// Pushing a renderer license commutes with taking views.
proof fn lemma_md_license_views_push(s: Seq<MdLicense>, x: MdLicense)
    ensures
        md_license_views(s.push(x)) == md_license_views(s).push(x@),
{
    assert forall|k: int| 0 <= k < s.push(x).len() implies #[trigger] md_license_views(s.push(x))[k]
        == md_license_views(s).push(x@)[k] by {
        if k < s.len() {
            assert(md_license_views(s)[k] == s[k]@);
        }
    }
    assert(md_license_views(s.push(x)) =~= md_license_views(s).push(x@));
}

/// The renderer licenses of a prefix of records, one longer.
proof fn lemma_md_license_views_of_extend(
    name: Seq<char>,
    ls: Seq<converter::LicenseModel>,
    i: int,
)
    requires
        0 <= i < ls.len(),
    ensures
        md_license_views_of(name, ls.subrange(0, i + 1)) == md_license_views_of(
            name,
            ls.subrange(0, i),
        ).push(md_license_of(name, ls[i])),
{
    let a = ls.subrange(0, i + 1);
    let b = ls.subrange(0, i);
    assert forall|k: int| 0 <= k < a.len() implies #[trigger] md_license_views_of(name, a)[k]
        == md_license_views_of(name, b).push(md_license_of(name, ls[i]))[k] by {
        if k < i {
            assert(md_license_views_of(name, b)[k] == md_license_of(name, b[k]));
        }
    }
    assert(md_license_views_of(name, a) =~= md_license_views_of(name, b).push(
        md_license_of(name, ls[i]),
    ));
}

/// The views of a sequence of prepared items.
pub open spec fn md_item_views(s: Seq<MdItem>) -> Seq<MdItemModel> {
    s.map_values(|it: MdItem| it@)
}

/// Pushing a prepared item commutes with taking views.
proof fn lemma_md_item_views_push(s: Seq<MdItem>, x: MdItem)
    ensures
        md_item_views(s.push(x)) == md_item_views(s).push(x@),
{
    assert forall|k: int| 0 <= k < s.push(x).len() implies #[trigger] md_item_views(s.push(x))[k]
        == md_item_views(s).push(x@)[k] by {
        if k < s.len() {
            assert(md_item_views(s)[k] == s[k]@);
        }
    }
    assert(md_item_views(s.push(x)) =~= md_item_views(s).push(x@));
}

/// The renderer items of a prefix of packages, one longer.
proof fn lemma_md_items_extend(ps: Seq<converter::PackageModel>, i: int)
    requires
        0 <= i < ps.len(),
    ensures
        md_items_of(ps.subrange(0, i + 1)) == md_items_of(ps.subrange(0, i)).push(
            md_item_of(ps[i]),
        ),
{
    let a = ps.subrange(0, i + 1);
    let b = ps.subrange(0, i);
    assert forall|k: int| 0 <= k < a.len() implies #[trigger] md_items_of(a)[k] == md_items_of(
        b,
    ).push(md_item_of(ps[i]))[k] by {
        if k < i {
            assert(md_items_of(b)[k] == md_item_of(b[k]));
        }
    }
    assert(md_items_of(a) =~= md_items_of(b).push(md_item_of(ps[i])));
}

/// The views of the writer's prepared items.
pub open spec fn writer_item_views(s: Seq<MdWriterItem>) -> Seq<MdItemModel> {
    s.map_values(|w: MdWriterItem| w.md_item@)
}

/// Pushing a writer item commutes with taking views.
proof fn lemma_writer_item_views_push(s: Seq<MdWriterItem>, x: MdWriterItem)
    ensures
        writer_item_views(s.push(x)) == writer_item_views(s).push(x.md_item@),
{
    assert forall|k: int| 0 <= k < s.push(x).len() implies #[trigger] writer_item_views(
        s.push(x),
    )[k] == writer_item_views(s).push(x.md_item@)[k] by {
        if k < s.len() {
            assert(writer_item_views(s)[k] == s[k].md_item@);
        }
    }
    assert(writer_item_views(s.push(x)) =~= writer_item_views(s).push(x.md_item@));
}

/// One row more of the table of contents.
proof fn lemma_toc_rows_extend(items: Seq<MdItemModel>, i: int)
    requires
        0 <= i < items.len(),
    ensures
        toc_rows_of(items.subrange(0, i + 1)) == toc_rows_of(items.subrange(0, i)) + toc_row_of(
            items[i],
        ),
{
    let a = items.subrange(0, i + 1);
    assert(a.drop_last() =~= items.subrange(0, i));
    assert(a.last() == items[i]);
}

/// One entry more of the license cell.
proof fn lemma_toc_cell_extend(ls: Seq<MdLicenseModel>, i: int)
    requires
        0 <= i < ls.len(),
    ensures
        i == 0 ==> toc_license_cell_of(ls.subrange(0, 1)) == license_entry_of(ls[0]),
        i > 0 ==> toc_license_cell_of(ls.subrange(0, i + 1)) == toc_license_cell_of(
            ls.subrange(0, i),
        ) + "/"@ + license_entry_of(ls[i]),
{
    let a = ls.subrange(0, i + 1);
    assert(a.drop_last() =~= ls.subrange(0, i));
    assert(a.last() == ls[i]);
    if i == 0 {
        assert(a[0] == ls[0]);
    }
}

/// One section more of a licenses prefix.
proof fn lemma_section_views_extend(ls: Seq<MdLicenseModel>, j: int)
    requires
        0 <= j < ls.len(),
    ensures
        section_views_of(ls.subrange(0, j + 1)) == section_views_of(ls.subrange(0, j)).push(
            section_of(ls[j]),
        ),
{
    let a = ls.subrange(0, j + 1);
    let b = ls.subrange(0, j);
    assert forall|k: int| 0 <= k < a.len() implies #[trigger] section_views_of(a)[k]
        == section_views_of(b).push(section_of(ls[j]))[k] by {
        if k < j {
            assert(section_views_of(b)[k] == section_of(b[k]));
        }
    }
    assert(section_views_of(a) =~= section_views_of(b).push(section_of(ls[j])));
}

/// One item's sections more of the catalog.
proof fn lemma_catalog_sections_extend(items: Seq<MdItemModel>, i: int)
    requires
        0 <= i < items.len(),
    ensures
        catalog_sections_of(items.subrange(0, i + 1)) == catalog_sections_of(
            items.subrange(0, i),
        ) + section_views_of(items[i].licenses),
{
    let a = items.subrange(0, i + 1);
    assert(a.drop_last() =~= items.subrange(0, i));
    assert(a.last() == items[i]);
}

/// Concatenating one text more.
proof fn lemma_concat_texts_push(ss: Seq<Seq<char>>, x: Seq<char>)
    ensures
        concat_texts(ss.push(x)) == concat_texts(ss) + x,
{
    assert(ss.push(x).drop_last() =~= ss);
    assert(ss.push(x).last() == x);
}

// ---------------------------------------------------------------------------
// Preprocessing, executable
// ---------------------------------------------------------------------------

/// The renderer licenses of a named package's records.
pub open spec fn md_license_views_of(name: Seq<char>, ls: Seq<converter::LicenseModel>)
    -> Seq<MdLicenseModel> {
    ls.map_values(|l: converter::LicenseModel| md_license_of(name, l))
}

/// Format the visible anchor label of a license within a package.
pub fn format_license_header(package: &str, license: &str) -> (r: String)
    ensures
        r@ == anchor_label_of(package@, license@),
{
    let mut out = String::new();
    out.append(license);
    out.append(" (");
    out.append(package);
    out.append(")");
    proof {
        assert(out@ =~= anchor_label_of(package@, license@));
    }
    out
}

/// Convert a package to a renderer item, deriving anchor labels and the
/// copyright note.
pub fn to_md_item(package: &converter::Package) -> (r: MdItem)
    ensures
        r@ == md_item_of(package@),
{
    let ghost pm = package@;
    let mut licenses: Vec<MdLicense> = Vec::new();
    let n = package.licenses.len();
    let mut i: usize = 0;
    proof {
        assert(pm.licenses.subrange(0, 0) =~= Seq::<converter::LicenseModel>::empty());
        assert(md_license_views(licenses@) =~= md_license_views_of(
            pm.name,
            pm.licenses.subrange(0, 0),
        ));
    }
    while i < n
        invariant
            i <= n,
            n == package.licenses@.len(),
            pm == package@,
            pm.licenses.len() == n,
            md_license_views(licenses@) == md_license_views_of(
                pm.name,
                pm.licenses.subrange(0, i as int),
            ),
        decreases n - i,
    {
        let lic = &package.licenses[i];
        proof {
            assert(lic@ == pm.licenses[i as int]);
        }
        let anchor = format_license_header(package.name.as_str(), lic.license.as_str());
        let entry = MdLicense {
            license: lic.license.clone(),
            text: match &lic.text {
                Some(t) => Some(t.clone()),
                None => None,
            },
            link_anchor: Some(anchor),
        };
        let ghost entrym = entry@;
        let ghost lv0 = licenses@;
        proof {
            assert(entrym == md_license_of(pm.name, pm.licenses[i as int]));
            lemma_md_license_views_push(lv0, entry);
            lemma_md_license_views_of_extend(pm.name, pm.licenses, i as int);
        }
        licenses.push(entry);
        proof {
            assert(md_license_views(licenses@) == md_license_views_of(
                pm.name,
                pm.licenses.subrange(0, i + 1),
            ));
        }
        i = i + 1;
    }
    proof {
        assert(pm.licenses.subrange(0, n as int) =~= pm.licenses);
        assert(md_license_views(licenses@) == md_licenses_of(pm));
    }
    let copyright_note = guess_copyright_note(&licenses);
    MdItem {
        package_name: package.name.clone(),
        copyright_note,
        link_to_project: match &package.link {
            Some(u) => Some(u.clone()),
            None => None,
        },
        licenses,
    }
}

/// Convert a whole collection to renderer items, in collection order.
pub fn into_md_items(input: &converter::PackageCollection) -> (r: Vec<MdItem>)
    ensures
        md_item_views(r@) == md_items_of(input@.packages),
{
    let ghost psm = input@.packages;
    let mut out: Vec<MdItem> = Vec::new();
    let n = input.packages.len();
    let mut i: usize = 0;
    proof {
        assert(psm.subrange(0, 0) =~= Seq::<converter::PackageModel>::empty());
        assert(md_item_views(out@) =~= md_items_of(psm.subrange(0, 0)));
    }
    while i < n
        invariant
            i <= n,
            n == input.packages@.len(),
            psm == input@.packages,
            psm.len() == n,
            md_item_views(out@) == md_items_of(psm.subrange(0, i as int)),
        decreases n - i,
    {
        let package = &input.packages[i];
        proof {
            assert(package@ == psm[i as int]);
        }
        let item = to_md_item(package);
        let ghost ov0 = out@;
        proof {
            lemma_md_item_views_push(ov0, item);
            lemma_md_items_extend(psm, i as int);
        }
        out.push(item);
        proof {
            assert(md_item_views(out@) == md_items_of(psm.subrange(0, i + 1)));
        }
        i = i + 1;
    }
    proof {
        assert(psm.subrange(0, n as int) =~= psm);
    }
    out
}

/// Format a name, or a markdown link around it when a target is present.
pub fn to_name_or_link(first: &str, second: &Option<String>) -> (r: String)
    ensures
        r@ == name_or_link_of(first@, opt_text_view(*second)),
{
    match second {
        Some(u) => {
            let mut out = String::new();
            out.append("[");
            out.append(first);
            out.append("](");
            out.append(u.as_str());
            out.append(")");
            proof {
                assert(out@ =~= name_or_link_of(first@, opt_text_view(*second)));
            }
            out
        },
        None => first.to_owned(),
    }
}

/// Format the package cell of a table-of-contents row.
pub fn format_toc_package_name(i: &MdItem) -> (r: String)
    ensures
        r@ == name_or_link_of(i@.package_name, i@.link_to_project),
{
    to_name_or_link(i.package_name.as_str(), &i.link_to_project)
}

/// Format the license cell of a table-of-contents row: the entries joined
/// with `/`, each linked to its anchor fragment when one is present.
pub fn format_toc_license_name(i: &MdItem) -> (r: String)
    ensures
        r@ == toc_license_cell_of(i@.licenses),
{
    let ghost lsm = md_license_views(i.licenses@);
    let mut license = String::new();
    let n = i.licenses.len();
    let mut pos: usize = 0;
    proof {
        assert(lsm.subrange(0, 0) =~= Seq::<MdLicenseModel>::empty());
        assert(license@ =~= toc_license_cell_of(lsm.subrange(0, 0)));
    }
    while pos < n
        invariant
            pos <= n,
            n == i.licenses@.len(),
            lsm == md_license_views(i.licenses@),
            lsm.len() == n,
            license@ == toc_license_cell_of(lsm.subrange(0, pos as int)),
        decreases n - pos,
    {
        let lic = &i.licenses[pos];
        proof {
            assert(lic@ == lsm[pos as int]);
        }
        let ghost out0 = license@;
        if pos > 0 {
            license.append("/");
        }
        let mut anchor: Option<String> = None;
        match &lic.link_anchor {
            Some(a) => {
                let frag = slugify(a.as_str());
                let mut h = String::new();
                h.append("#");
                h.append(frag.as_str());
                proof {
                    assert(h@ =~= "#"@ + slug_of(a@));
                }
                anchor = Some(h);
            },
            None => {},
        }
        let entry = to_name_or_link(lic.license.as_str(), &anchor);
        proof {
            assert(entry@ == license_entry_of(lsm[pos as int]));
        }
        license.append(entry.as_str());
        proof {
            lemma_toc_cell_extend(lsm, pos as int);
            assert(license@ =~= toc_license_cell_of(lsm.subrange(0, pos + 1)));
        }
        pos = pos + 1;
    }
    proof {
        assert(lsm.subrange(0, n as int) =~= lsm);
    }
    license
}

// ---------------------------------------------------------------------------
// The writer
// ---------------------------------------------------------------------------

impl MdWriter {
    /// Prepare a writer from a collection: one renderer item per package, in
    /// collection order.
    pub fn new(input: &converter::PackageCollection, md_config: MdConfig) -> (r: Self)
        ensures
            r@ == md_items_of(input@.packages),
    {
        let items = into_md_items(input);
        let mut writer_items: Vec<MdWriterItem> = Vec::new();
        let n = items.len();
        let mut k: usize = 0;
        proof {
            assert(writer_item_views(writer_items@) =~= md_item_views(items@).subrange(0, 0));
        }
        while k < n
            invariant
                k <= n,
                n == items@.len(),
                md_item_views(items@) == md_items_of(input@.packages),
                writer_item_views(writer_items@) == md_item_views(items@).subrange(0, k as int),
            decreases n - k,
        {
            let w = MdWriterItem::from(&items[k]);
            let ghost wm = w.md_item@;
            let ghost wv0 = writer_items@;
            proof {
                lemma_writer_item_views_push(wv0, w);
                assert(wm == md_item_views(items@)[k as int]);
            }
            writer_items.push(w);
            proof {
                assert(writer_item_views(writer_items@) =~= md_item_views(items@).subrange(
                    0,
                    k + 1,
                ));
            }
            k = k + 1;
        }
        proof {
            assert(md_item_views(items@).subrange(0, n as int) =~= md_item_views(items@));
        }
        MdWriter { writer_items, md_config }
    }

    /// Render the table of contents: a header and one row per package, with
    /// each license linked to its catalog anchor.
    pub fn create_toc(&self) -> (r: String)
        ensures
            r@ == toc_text_of(self@),
    {
        let ghost itemsm = self@;
        let mut output = String::new();
        output.append("| Library Name | License | Authors |\n|-|-|-|\n");
        proof {
            assert(itemsm.subrange(0, 0) =~= Seq::<MdItemModel>::empty());
            assert(output@ =~= toc_header() + toc_rows_of(itemsm.subrange(0, 0)));
        }
        let n = self.writer_items.len();
        let mut i: usize = 0;
        while i < n
            invariant
                i <= n,
                n == self.writer_items@.len(),
                itemsm == self@,
                itemsm.len() == n,
                output@ == toc_header() + toc_rows_of(itemsm.subrange(0, i as int)),
            decreases n - i,
        {
            let item = &self.writer_items[i].md_item;
            proof {
                assert(item@ == itemsm[i as int]);
            }
            let name = format_toc_package_name(item);
            let license = format_toc_license_name(item);
            let ghost out0 = output@;
            output.append("| ");
            output.append(name.as_str());
            output.append(" | ");
            output.append(license.as_str());
            output.append(" | ");
            match &item.copyright_note {
                Some(nn) => output.append(nn.as_str()),
                None => {},
            }
            output.append(" |\n");
            proof {
                lemma_toc_rows_extend(itemsm, i as int);
                assert(output@ =~= out0 + toc_row_of(itemsm[i as int]));
                assert(output@ =~= toc_header() + toc_rows_of(itemsm.subrange(0, i + 1)));
            }
            i = i + 1;
        }
        proof {
            assert(itemsm.subrange(0, n as int) =~= itemsm);
        }
        output
    }

    /// Render the license catalog: a top-level heading, then one section per
    /// package-license pair, each holding the license text in a code block,
    /// with absent texts rendered as the literal fallback.
    pub fn create_license_texts_list(&self) -> (r: String)
        ensures
            r@ == catalog_text_of(self@),
    {
        let ghost itemsm = self@;
        let mut output = String::new();
        output.append("# Licenses of Third-Party Libraries\n");
        proof {
            assert(itemsm.subrange(0, 0) =~= Seq::<MdItemModel>::empty());
            assert(output@ =~= catalog_header() + concat_texts(
                catalog_sections_of(itemsm.subrange(0, 0)),
            ));
        }
        let n = self.writer_items.len();
        let mut i: usize = 0;
        while i < n
            invariant
                i <= n,
                n == self.writer_items@.len(),
                itemsm == self@,
                itemsm.len() == n,
                output@ == catalog_header() + concat_texts(
                    catalog_sections_of(itemsm.subrange(0, i as int)),
                ),
            decreases n - i,
        {
            let item = &self.writer_items[i].md_item;
            proof {
                assert(item@ == itemsm[i as int]);
            }
            let ghost licsm = md_license_views(item.licenses@);
            let ghost sec_a = catalog_sections_of(itemsm.subrange(0, i as int));
            let m = item.licenses.len();
            let mut j: usize = 0;
            proof {
                assert(licsm.subrange(0, 0) =~= Seq::<MdLicenseModel>::empty());
                assert(section_views_of(licsm.subrange(0, 0)) =~= Seq::<Seq<char>>::empty());
                assert(sec_a + section_views_of(licsm.subrange(0, 0)) =~= sec_a);
            }
            while j < m
                invariant
                    j <= m,
                    m == item.licenses@.len(),
                    licsm == md_license_views(item.licenses@),
                    licsm.len() == m,
                    sec_a == catalog_sections_of(itemsm.subrange(0, i as int)),
                    output@ == catalog_header() + concat_texts(
                        sec_a + section_views_of(licsm.subrange(0, j as int)),
                    ),
                decreases m - j,
            {
                let license = &item.licenses[j];
                proof {
                    assert(license@ == licsm[j as int]);
                }
                let ghost out0 = output@;
                output.append("\n## ");
                match &license.link_anchor {
                    Some(a) => output.append(a.as_str()),
                    None => output.append(license.license.as_str()),
                }
                output.append("\n\n```\n");
                let body = match &license.text {
                    Some(t) => expand_escapes(t.as_str()),
                    None => expand_escapes("NOT FOUND\n"),
                };
                output.append(body.as_str());
                output.append("```\n");
                proof {
                    assert(output@ =~= out0 + section_of(licsm[j as int]));
                    lemma_section_views_extend(licsm, j as int);
                    lemma_concat_texts_push(
                        sec_a + section_views_of(licsm.subrange(0, j as int)),
                        section_of(licsm[j as int]),
                    );
                    assert(sec_a + section_views_of(licsm.subrange(0, j + 1)) =~= (sec_a
                        + section_views_of(licsm.subrange(0, j as int))).push(
                        section_of(licsm[j as int]),
                    ));
                    assert(output@ =~= catalog_header() + concat_texts(
                        sec_a + section_views_of(licsm.subrange(0, j + 1)),
                    ));
                }
                j = j + 1;
            }
            proof {
                assert(licsm.subrange(0, m as int) =~= licsm);
                lemma_catalog_sections_extend(itemsm, i as int);
                assert(itemsm[i as int].licenses == licsm);
                assert(output@ == catalog_header() + concat_texts(
                    catalog_sections_of(itemsm.subrange(0, i + 1)),
                ));
            }
            i = i + 1;
        }
        proof {
            assert(itemsm.subrange(0, n as int) =~= itemsm);
        }
        output
    }

    /// Render the license catalog; same text as `create_license_texts_list`.
    pub fn create_licenses_list(&self) -> (r: String)
        ensures
            r@ == catalog_text_of(self@),
    {
        self.create_license_texts_list()
    }
}

// ---------------------------------------------------------------------------
// Rendering laws
// ---------------------------------------------------------------------------

/// Rendering is deterministic: writers prepared over equal item sequences
/// yield byte-identical tables of contents and catalogs.
pub proof fn lemma_rendering_deterministic(a: Seq<MdItemModel>, b: Seq<MdItemModel>)
    requires
        a == b,
    ensures
        toc_text_of(a) == toc_text_of(b),
        catalog_text_of(a) == catalog_text_of(b),
{
}

/// The total count of licenses across renderer items.
pub open spec fn catalog_license_count(items: Seq<MdItemModel>) -> nat
    decreases items.len(),
{
    if items.len() == 0 {
        0
    } else {
        catalog_license_count(items.drop_last()) + items.last().licenses.len()
    }
}

/// The catalog holds one section per package-license pair, duplicates kept:
/// its section count is the sum of the per-package license counts.
pub proof fn lemma_catalog_section_count(items: Seq<MdItemModel>)
    ensures
        catalog_sections_of(items).len() == catalog_license_count(items),
    decreases items.len(),
{
    if items.len() == 0 {
    } else {
        lemma_catalog_section_count(items.drop_last());
    }
}

/// A license with an absent text renders its catalog section around the
/// literal fallback text.
pub proof fn lemma_missing_text_section(l: MdLicenseModel)
    requires
        l.text is None,
    ensures
        section_of(l) == "\n## "@ + section_heading_of(l) + "\n\n```\n"@ + "NOT FOUND\n"@
            + "```\n"@,
{
    reveal_strlit("NOT FOUND\n");
    let s = "NOT FOUND\n"@;
    assert forall|k: int| 0 <= k < s.len() implies s[k] != '\\' by {
        if k == 0 {
            assert(s[0] == 'N');
        } else if k == 1 {
            assert(s[1] == 'O');
        } else if k == 2 {
            assert(s[2] == 'T');
        } else if k == 3 {
            assert(s[3] == ' ');
        } else if k == 4 {
            assert(s[4] == 'F');
        } else if k == 5 {
            assert(s[5] == 'O');
        } else if k == 6 {
            assert(s[6] == 'U');
        } else if k == 7 {
            assert(s[7] == 'N');
        } else if k == 8 {
            assert(s[8] == 'D');
        } else {
            assert(s[9] == '\n');
        }
    }
    crate::text::lemma_expand_no_backslash(s);
}

} // verus!
