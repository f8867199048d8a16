//! The map files: UID to external gene ids, to taxon id, to lineage.
//!
//! Each is tab-separated, one UID per line; empty lines and lines that
//! start with `#` say nothing, nor do lines without a tab. A later line
//! for a UID replaces an earlier one.

use vstd::prelude::*;
use std::collections::HashMap;
use crate::text::{chars_of, line_fields, names_of, parse_u32, parsed_u32, split_fields, split_line, splits};
use crate::uid::{parse_uid, uid_of_text};

verus! {

/// Why a map file cannot be read. Lines count from 0.
#[derive(Clone, Copy, Debug, PartialEq, Eq, Structural)]
pub enum MapError {
    /// The first field of the line is no UID.
    MalformedUid { line: usize },
    /// The second field of the line is no taxon id.
    MalformedTaxon { line: usize },
}

/// UID to external gene ids.
pub type GeneMap = HashMap<u128, Vec<String>>;

/// UID to taxon id.
pub type TaxonMap = HashMap<u128, u32>;

/// UID to lineage string.
pub type LineageMap = HashMap<u128, String>;

/// What a gene map says, as plain text.
pub open spec fn gene_texts(map: Map<u128, Vec<String>>) -> Map<u128, Seq<Seq<char>>> {
    Map::new(|uid: u128| map.contains_key(uid), |uid: u128| names_of(map[uid]@))
}

/// What a lineage map says, as plain text.
pub open spec fn lineage_texts(map: Map<u128, String>) -> Map<u128, Seq<char>> {
    Map::new(|uid: u128| map.contains_key(uid), |uid: u128| map[uid]@)
}

/// The entry that a line of a gene map makes, given what its first field
/// reads as: the second field holds the gene ids, separated by commas.
pub open spec fn gene_entry(uid: Option<u128>, rest: Seq<char>, line: usize) -> Result<
    (u128, Seq<Seq<char>>),
    MapError,
> {
    match uid {
        Some(uid) => Ok((uid, splits(rest, ','))),
        None => Err(MapError::MalformedUid { line }),
    }
}

/// The entry that a line of a taxon map makes, given what its first field
/// reads as: the second field holds the taxon id in decimal.
pub open spec fn taxon_entry(uid: Option<u128>, rest: Seq<char>, line: usize) -> Result<
    (u128, u32),
    MapError,
> {
    match uid {
        Some(uid) => match parsed_u32(rest) {
            Some(taxon) => Ok((uid, taxon)),
            None => Err(MapError::MalformedTaxon { line }),
        },
        None => Err(MapError::MalformedUid { line }),
    }
}

/// The entry that a line of a lineage map makes, given what its first
/// field reads as: the second field is the lineage, as it stands.
pub open spec fn lineage_entry(uid: Option<u128>, rest: Seq<char>, line: usize) -> Result<
    (u128, Seq<char>),
    MapError,
> {
    match uid {
        Some(uid) => Ok((uid, rest)),
        None => Err(MapError::MalformedUid { line }),
    }
}

/// What the first `n` lines of a map file say, where `entry` tells what a
/// line with two fields makes: the entries of the lines, later ones over
/// earlier ones, or the error of the first line that is refused.
pub open spec fn parsed_map<V>(
    lines: Seq<Seq<char>>,
    entry: spec_fn(Option<u128>, Seq<char>, usize) -> Result<(u128, V), MapError>,
    n: nat,
) -> Result<Map<u128, V>, MapError>
    decreases n,
{
    if n == 0 {
        Ok(Map::empty())
    } else {
        match parsed_map(lines, entry, (n - 1) as nat) {
            Err(error) => Err(error),
            Ok(map) => match line_fields(lines[n - 1]) {
                None => Ok(map),
                Some((key, rest)) => match entry(uid_of_text(key), rest, (n - 1) as usize) {
                    Ok((uid, value)) => Ok(map.insert(uid, value)),
                    Err(error) => Err(error),
                },
            },
        }
    }
}

/// Once a line is refused, the map is refused with that line's error.
pub proof fn lemma_parsed_map_stays<V>(
    lines: Seq<Seq<char>>,
    entry: spec_fn(Option<u128>, Seq<char>, usize) -> Result<(u128, V), MapError>,
    n: nat,
    m: nat,
)
    requires
        n <= m,
        parsed_map(lines, entry, n) is Err,
    ensures
        parsed_map(lines, entry, m) == parsed_map(lines, entry, n),
    decreases m - n,
{
    if n < m {
        lemma_parsed_map_stays(lines, entry, n, (m - 1) as nat);
    }
}

/// What a gene map file says.
pub open spec fn parsed_gene_map(lines: Seq<Seq<char>>) -> Result<
    Map<u128, Seq<Seq<char>>>,
    MapError,
> {
    parsed_map(
        lines,
        |uid: Option<u128>, rest: Seq<char>, line: usize| gene_entry(uid, rest, line),
        lines.len(),
    )
}

/// What a taxon map file says.
pub open spec fn parsed_taxon_map(lines: Seq<Seq<char>>) -> Result<Map<u128, u32>, MapError> {
    parsed_map(
        lines,
        |uid: Option<u128>, rest: Seq<char>, line: usize| taxon_entry(uid, rest, line),
        lines.len(),
    )
}

/// What a lineage map file says.
pub open spec fn parsed_lineage_map(lines: Seq<Seq<char>>) -> Result<
    Map<u128, Seq<char>>,
    MapError,
> {
    parsed_map(
        lines,
        |uid: Option<u128>, rest: Seq<char>, line: usize| lineage_entry(uid, rest, line),
        lines.len(),
    )
}

/// Makes the entry of a gene map line from what its first field read as.
pub fn gene_entry_of(uid: Option<u128>, rest: &String, line: usize) -> (out: Result<
    (u128, Vec<String>),
    MapError,
>)
    ensures
        match out {
            Ok((key, ids)) => gene_entry(uid, rest@, line) == Ok::<
                (u128, Seq<Seq<char>>),
                MapError,
            >((key, names_of(ids@))),
            Err(error) => gene_entry(uid, rest@, line) == Err::<(u128, Seq<Seq<char>>), MapError>(
                error,
            ),
        },
{
    match uid {
        Some(key) => {
            let chars = chars_of(rest.as_str());
            let ids = split_fields(&chars, 0, chars.len(), ',');
            assert(chars@.subrange(0, chars@.len() as int) =~= rest@);
            Ok((key, ids))
        },
        None => Err(MapError::MalformedUid { line }),
    }
}

/// Makes the entry of a taxon map line from what its first field read as.
pub fn taxon_entry_of(uid: Option<u128>, rest: &String, line: usize) -> (out: Result<
    (u128, u32),
    MapError,
>)
    ensures
        out == taxon_entry(uid, rest@, line),
{
    match uid {
        Some(key) => {
            let chars = chars_of(rest.as_str());
            assert(chars@.subrange(0, chars@.len() as int) =~= rest@);
            match parse_u32(&chars, 0, chars.len()) {
                Some(taxon) => Ok((key, taxon)),
                None => Err(MapError::MalformedTaxon { line }),
            }
        },
        None => Err(MapError::MalformedUid { line }),
    }
}

/// Makes the entry of a lineage map line from what its first field read
/// as.
pub fn lineage_entry_of(uid: Option<u128>, rest: String, line: usize) -> (out: Result<
    (u128, String),
    MapError,
>)
    ensures
        match out {
            Ok((key, lineage)) => lineage_entry(uid, rest@, line) == Ok::<
                (u128, Seq<char>),
                MapError,
            >((key, lineage@)),
            Err(error) => lineage_entry(uid, rest@, line) == Err::<(u128, Seq<char>), MapError>(
                error,
            ),
        },
{
    match uid {
        Some(key) => Ok((key, rest)),
        None => Err(MapError::MalformedUid { line }),
    }
}

/// Reads a gene map file, line by line.
pub fn read_gene_map_file(lines: &Vec<String>) -> (out: Result<GeneMap, MapError>)
    ensures
        match out {
            Ok(map) => parsed_gene_map(names_of(lines@)) == Ok::<
                Map<u128, Seq<Seq<char>>>,
                MapError,
            >(gene_texts(map@)),
            Err(error) => parsed_gene_map(names_of(lines@)) == Err::<
                Map<u128, Seq<Seq<char>>>,
                MapError,
            >(error),
        },
{
    let ghost entry = |uid: Option<u128>, rest: Seq<char>, line: usize| gene_entry(uid, rest, line);
    let mut map: GeneMap = HashMap::new();
    let mut i: usize = 0;
    assert(gene_texts(map@) =~= Map::<u128, Seq<Seq<char>>>::empty());
    while i < lines.len()
        invariant
            i <= lines.len(),
            entry == |uid: Option<u128>, rest: Seq<char>, line: usize| gene_entry(uid, rest, line),
            parsed_map(names_of(lines@), entry, i as nat) == Ok::<
                Map<u128, Seq<Seq<char>>>,
                MapError,
            >(gene_texts(map@)),
        decreases lines.len() - i,
    {
        assert(names_of(lines@)[i as int] == lines@[i as int]@);
        match split_line(&lines[i]) {
            Some((key, rest)) => {
                let ghost before = map@;
                match gene_entry_of(parse_uid(key.as_str()), &rest, i) {
                    Ok((uid, ids)) => {
                        map.insert(uid, ids);
                        assert(gene_texts(map@) =~= gene_texts(before).insert(uid, names_of(ids@)));
                    },
                    Err(error) => {
                        proof {
                            lemma_parsed_map_stays(
                                names_of(lines@),
                                entry,
                                (i + 1) as nat,
                                lines@.len(),
                            );
                        }
                        return Err(error);
                    },
                }
            },
            None => {},
        }
        i += 1;
    }
    Ok(map)
}

/// Reads a taxon map file, line by line.
pub fn read_taxon_map_file(lines: &Vec<String>) -> (out: Result<TaxonMap, MapError>)
    ensures
        match out {
            Ok(map) => parsed_taxon_map(names_of(lines@)) == Ok::<Map<u128, u32>, MapError>(map@),
            Err(error) => parsed_taxon_map(names_of(lines@)) == Err::<Map<u128, u32>, MapError>(
                error,
            ),
        },
{
    let ghost entry = |uid: Option<u128>, rest: Seq<char>, line: usize|
        taxon_entry(uid, rest, line);
    let mut map: TaxonMap = HashMap::new();
    let mut i: usize = 0;
    while i < lines.len()
        invariant
            i <= lines.len(),
            entry == |uid: Option<u128>, rest: Seq<char>, line: usize|
                taxon_entry(uid, rest, line),
            parsed_map(names_of(lines@), entry, i as nat) == Ok::<Map<u128, u32>, MapError>(map@),
        decreases lines.len() - i,
    {
        assert(names_of(lines@)[i as int] == lines@[i as int]@);
        match split_line(&lines[i]) {
            Some((key, rest)) => {
                match taxon_entry_of(parse_uid(key.as_str()), &rest, i) {
                    Ok((uid, taxon)) => {
                        map.insert(uid, taxon);
                    },
                    Err(error) => {
                        proof {
                            lemma_parsed_map_stays(
                                names_of(lines@),
                                entry,
                                (i + 1) as nat,
                                lines@.len(),
                            );
                        }
                        return Err(error);
                    },
                }
            },
            None => {},
        }
        i += 1;
    }
    Ok(map)
}

/// Reads a lineage map file, line by line.
pub fn read_lineage_map_file(lines: &Vec<String>) -> (out: Result<LineageMap, MapError>)
    ensures
        match out {
            Ok(map) => parsed_lineage_map(names_of(lines@)) == Ok::<
                Map<u128, Seq<char>>,
                MapError,
            >(lineage_texts(map@)),
            Err(error) => parsed_lineage_map(names_of(lines@)) == Err::<
                Map<u128, Seq<char>>,
                MapError,
            >(error),
        },
{
    let ghost entry = |uid: Option<u128>, rest: Seq<char>, line: usize|
        lineage_entry(uid, rest, line);
    let mut map: LineageMap = HashMap::new();
    let mut i: usize = 0;
    assert(lineage_texts(map@) =~= Map::<u128, Seq<char>>::empty());
    while i < lines.len()
        invariant
            i <= lines.len(),
            entry == |uid: Option<u128>, rest: Seq<char>, line: usize|
                lineage_entry(uid, rest, line),
            parsed_map(names_of(lines@), entry, i as nat) == Ok::<Map<u128, Seq<char>>, MapError>(
                lineage_texts(map@),
            ),
        decreases lines.len() - i,
    {
        assert(names_of(lines@)[i as int] == lines@[i as int]@);
        match split_line(&lines[i]) {
            Some((key, rest)) => {
                let ghost before = map@;
                match lineage_entry_of(parse_uid(key.as_str()), rest, i) {
                    Ok((uid, lineage)) => {
                        let ghost text = lineage@;
                        map.insert(uid, lineage);
                        assert(lineage_texts(map@) =~= lineage_texts(before).insert(uid, text));
                    },
                    Err(error) => {
                        proof {
                            lemma_parsed_map_stays(
                                names_of(lines@),
                                entry,
                                (i + 1) as nat,
                                lines@.len(),
                            );
                        }
                        return Err(error);
                    },
                }
            },
            None => {},
        }
        i += 1;
    }
    Ok(map)
}

} // verus!
