//! The identifier catalog: descriptive metadata joined into ranking entries.

use vstd::prelude::*;
use itertools::Itertools;
use crate::models::PartialVoteItemEntry;
use crate::text::{same_text, texts};

verus! {

/// `parts` written one after the other with `sep` between neighbours.
pub open spec fn joined(parts: Seq<Seq<char>>, sep: Seq<char>) -> Seq<char>
    decreases parts.len(),
{
    if parts.len() == 0 {
        Seq::empty()
    } else if parts.len() == 1 {
        parts[0]
    } else {
        joined(parts.drop_last(), sep) + sep + parts.last()
    }
}

/// Calls `Itertools::join` on the strings: the result is the strings
/// written one after the other, with `sep` between neighbours.
#[verifier::external_body]
pub(crate) fn join_texts(parts: &Vec<String>, sep: &str) -> (s: String)
    ensures
        s@ == joined(texts(parts@), sep@),
{
    parts.iter().join(sep)
}

/// The label shown for a category code; an unknown code is shown as
/// unknown.
pub open spec fn kind_label_of(kind: Seq<char>) -> Seq<char> {
    if kind == "old"@ {
        "旧作"@
    } else if kind == "new"@ {
        "新作"@
    } else if kind == "CD"@ {
        "专辑"@
    } else if kind == "book"@ {
        "出版物"@
    } else if kind == "others"@ || kind == "other"@ {
        "其他"@
    } else if kind == "game"@ {
        "游戏"@
    } else {
        "未知"@
    }
}

/// The label shown for a category code.
pub fn kind_label(kind: &String) -> (label: String)
    ensures
        label@ == kind_label_of(kind@),
{
    if same_text(kind, "old") {
        "旧作".to_owned()
    } else if same_text(kind, "new") {
        "新作".to_owned()
    } else if same_text(kind, "CD") {
        "专辑".to_owned()
    } else if same_text(kind, "book") {
        "出版物".to_owned()
    } else if same_text(kind, "others") || same_text(kind, "other") {
        "其他".to_owned()
    } else if same_text(kind, "game") {
        "游戏".to_owned()
    } else {
        "未知".to_owned()
    }
}

/// The labels of a list of category codes.
pub open spec fn kind_labels_of(kinds: Seq<Seq<char>>) -> Seq<Seq<char>> {
    Seq::new(kinds.len(), |i: int| kind_label_of(kinds[i]))
}

/// The last row of the catalog that bears the name `n`.
pub open spec fn last_row(catalog: Seq<PartialVoteItemEntry>, n: Seq<char>) -> Option<int>
    decreases catalog.len(),
{
    if catalog.len() == 0 {
        None
    } else if catalog.last().name@ == n {
        Some(catalog.len() - 1)
    } else {
        last_row(catalog.drop_last(), n)
    }
}

/// The descriptive fields of a ranking entry.
pub struct Metadata {
    pub character_type: String,
    pub character_origin: String,
    pub first_appearance: String,
    pub name_jpn: String,
}

/// The metadata of the name `n`: taken from its catalog row, or all
/// unknown when the catalog has no such row.
pub open spec fn metadata_ok(m: Metadata, catalog: Seq<PartialVoteItemEntry>, n: Seq<char>) -> bool {
    match last_row(catalog, n) {
        Some(r) => {
            &&& m.character_type@ == joined(kind_labels_of(texts(catalog[r].kind@)), ","@)
            &&& m.character_origin@ == joined(texts(catalog[r].work@), ","@)
            &&& m.first_appearance@ == catalog[r].date@
            &&& m.name_jpn@ == catalog[r].origname@
        },
        None => {
            &&& m.character_type@ == "未知"@
            &&& m.character_origin@ == "未知"@
            &&& m.first_appearance@ == "未知"@
            &&& m.name_jpn@ == "未知"@
        },
    }
}

/// Metadata of a catalog row.
pub fn row_metadata(row: &PartialVoteItemEntry) -> (m: Metadata)
    ensures
        m.character_type@ == joined(kind_labels_of(texts(row.kind@)), ","@),
        m.character_origin@ == joined(texts(row.work@), ","@),
        m.first_appearance@ == row.date@,
        m.name_jpn@ == row.origname@,
{
    let mut labels: Vec<String> = Vec::new();
    let mut i: usize = 0;
    while i < row.kind.len()
        invariant
            i <= row.kind.len(),
            labels.len() == i,
            forall|k: int| 0 <= k < i ==> (#[trigger] labels[k])@ == kind_label_of(row.kind[k]@),
        decreases row.kind.len() - i,
    {
        labels.push(kind_label(&row.kind[i]));
        i += 1;
    }
    proof {
        assert(texts(labels@) =~= kind_labels_of(texts(row.kind@)));
    }
    Metadata {
        character_type: join_texts(&labels, ","),
        character_origin: join_texts(&row.work, ","),
        first_appearance: row.date.clone(),
        name_jpn: row.origname.clone(),
    }
}

/// Metadata of a name that the catalog does not know.
pub fn unknown_metadata() -> (m: Metadata)
    ensures
        m.character_type@ == "未知"@,
        m.character_origin@ == "未知"@,
        m.first_appearance@ == "未知"@,
        m.name_jpn@ == "未知"@,
{
    Metadata {
        character_type: "未知".to_owned(),
        character_origin: "未知".to_owned(),
        first_appearance: "未知".to_owned(),
        name_jpn: "未知".to_owned(),
    }
}

} // verus!
