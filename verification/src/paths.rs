//! The names and directory layout of persisted artifacts: one file per table
//! body and one per `(table, column)` index, plus the page and index
//! directories of the storage layer. These functions only compute names;
//! reading and writing the files happens outside the engine, which receives
//! every root directory as a plain argument.

use vstd::prelude::*;
use vstd::string::StringExecFns;

use crate::strutil::{decimal_of, file_name_char, file_name_fold, push_decimal};

verus! {

/// Converts a string into its file-name counterpart: spaces become
/// underscores and ASCII letters are uppercased.
pub fn format_for_file_name(str: &str) -> (r: String)
    ensures
        r@ == str@.map_values(|c: char| file_name_char(c)),
{
    file_name_fold(str)
}

/// The file name of the persisted index over one column of one table.
pub fn index_file_name(table_name: &str, column_name: &str) -> (r: String)
    ensures
        r@ == "idx_"@ + table_name@ + "_"@ + column_name@ + ".bin"@,
{
    let mut out = String::new();
    out.append("idx_");
    out.append(table_name);
    out.append("_");
    out.append(column_name);
    out.append(".bin");
    proof {
        assert(out@ =~= "idx_"@ + table_name@ + "_"@ + column_name@ + ".bin"@);
    }
    out
}

/// The file name of a persisted table body.
pub fn relation_file_name(name: &String) -> (r: String)
    ensures
        r@ == "db_"@ + name@.map_values(|c: char| file_name_char(c)) + ".bin"@,
{
    let mut out = String::new();
    out.append("db_");
    let folded = format_for_file_name(name.as_str());
    out.append(folded.as_str());
    out.append(".bin");
    proof {
        assert(out@ =~= "db_"@ + name@.map_values(|c: char| file_name_char(c)) + ".bin"@);
    }
    out
}

/// The directory holding a table's pages, under the given root.
pub fn pages_directory(root: &str) -> (r: String)
    ensures
        r@ == root@ + "/pages"@,
{
    let mut out = String::new();
    out.append(root);
    out.append("/pages");
    proof {
        assert(out@ =~= root@ + "/pages"@);
    }
    out
}

/// The directory holding a table's indexes, under the given root.
pub fn index_directory(root: &str) -> (r: String)
    ensures
        r@ == root@ + "/index"@,
{
    let mut out = String::new();
    out.append(root);
    out.append("/index");
    proof {
        assert(out@ =~= root@ + "/index"@);
    }
    out
}

/// One user's directory under the application data root.
pub fn user_directory(root: &str, username: &str) -> (r: String)
    ensures
        r@ == root@ + "/users/"@ + username@,
{
    let mut out = String::new();
    out.append(root);
    out.append("/users/");
    out.append(username);
    proof {
        assert(out@ =~= root@ + "/users/"@ + username@);
    }
    out
}

/// One table's directory under one user's directory.
pub fn table_directory(root: &str, username: &str, table_name: &str) -> (r: String)
    ensures
        r@ == root@ + "/users/"@ + username@ + "/"@ + table_name@,
{
    let mut out = String::new();
    out.append(root);
    out.append("/users/");
    out.append(username);
    out.append("/");
    out.append(table_name);
    proof {
        assert(out@ =~= root@ + "/users/"@ + username@ + "/"@ + table_name@);
    }
    out
}

/// The pages directory of one table.
pub fn table_pages_dir(root: &str, table_name: &str) -> (r: String)
    ensures
        r@ == root@ + "/users/"@ + table_name@ + "/pages"@,
{
    let u = user_directory(root, table_name);
    let r = pages_directory(u.as_str());
    proof {
        assert(r@ =~= root@ + "/users/"@ + table_name@ + "/pages"@);
    }
    r
}

/// The index directory of one table.
pub fn table_index_dir(root: &str, table_name: &str) -> (r: String)
    ensures
        r@ == root@ + "/users/"@ + table_name@ + "/index"@,
{
    let u = user_directory(root, table_name);
    let r = index_directory(u.as_str());
    proof {
        assert(r@ =~= root@ + "/users/"@ + table_name@ + "/index"@);
    }
    r
}

/// The file holding one page of a table, under the table's pages directory.
pub fn path_to_page(pages_dir: &str, page_id: u8) -> (r: String)
    ensures
        r@ == pages_dir@ + "/"@ + decimal_of(page_id as int) + ".bin"@,
{
    let mut out = String::new();
    out.append(pages_dir);
    out.append("/");
    push_decimal(&mut out, page_id as u64);
    out.append(".bin");
    proof {
        assert(out@ =~= pages_dir@ + "/"@ + decimal_of(page_id as int) + ".bin"@);
    }
    out
}

} // verus!
