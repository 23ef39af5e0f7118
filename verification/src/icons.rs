//! The themed icon shown beside an entry in a result list.
use vstd::prelude::*;
use crate::text::{views_of, in_list, ascii_lower};
use crate::entry::FileEntry;
use crate::search::{extension_or_empty, lower_extension};

verus! {

pub const SCRIPT_ICON_EXTENSIONS: [&'static str; 26] = [
    "rs", "c", "cpp", "h", "hpp", "js", "ts", "jsx", "tsx", "css", "scss", "sass", "json", "toml",
    "yaml", "yml", "xml", "sql", "sh", "bash", "zsh", "go", "java", "kt", "swift", "php",
];

pub const PYTHON_ICON_EXTENSIONS: [&'static str; 1] = ["py"];

pub const MARKDOWN_ICON_EXTENSIONS: [&'static str; 1] = ["md"];

pub const PDF_ICON_EXTENSIONS: [&'static str; 1] = ["pdf"];

pub const HTML_ICON_EXTENSIONS: [&'static str; 2] = ["html", "htm"];

pub const IMAGE_ICON_EXTENSIONS: [&'static str; 9] = [
    "png", "jpg", "jpeg", "svg", "gif", "webp", "bmp", "ico", "tiff",
];

pub const AUDIO_ICON_EXTENSIONS: [&'static str; 8] = [
    "mp3", "wav", "flac", "ogg", "m4a", "aac", "opus", "wma",
];

pub const VIDEO_ICON_EXTENSIONS: [&'static str; 7] = ["mp4", "mkv", "webm", "avi", "mov", "flv", "wmv"];

pub const DOCUMENT_ICON_EXTENSIONS: [&'static str; 4] = ["doc", "docx", "odt", "rtf"];

pub const SPREADSHEET_ICON_EXTENSIONS: [&'static str; 4] = ["xls", "xlsx", "ods", "csv"];

pub const PRESENTATION_ICON_EXTENSIONS: [&'static str; 3] = ["ppt", "pptx", "odp"];

pub const ARCHIVE_ICON_EXTENSIONS: [&'static str; 11] = [
    "zip", "tar", "gz", "7z", "rar", "xz", "bz2", "zst", "deb", "rpm", "iso",
];

pub const EXECUTABLE_ICON_EXTENSIONS: [&'static str; 5] = ["bin", "so", "o", "a", "appimage"];

pub const FONT_ICON_EXTENSIONS: [&'static str; 4] = ["ttf", "otf", "woff", "woff2"];

/// The icon for an entry: a folder for a directory; for a file, the icon of
/// the group that its ASCII-lower-cased extension falls in, and the generic
/// text icon when it falls in none (or the file has no extension).
pub open spec fn icon_for(is_dir: bool, ext: Seq<char>) -> Seq<char> {
    if is_dir {
        "folder"@
    } else if views_of(PYTHON_ICON_EXTENSIONS@).contains(ext) {
        "text-x-python"@
    } else if views_of(MARKDOWN_ICON_EXTENSIONS@).contains(ext) {
        "text-markdown"@
    } else if views_of(SCRIPT_ICON_EXTENSIONS@).contains(ext) {
        "text-x-script"@
    } else if views_of(HTML_ICON_EXTENSIONS@).contains(ext) {
        "text-html"@
    } else if views_of(IMAGE_ICON_EXTENSIONS@).contains(ext) {
        "image-x-generic"@
    } else if views_of(AUDIO_ICON_EXTENSIONS@).contains(ext) {
        "audio-x-generic"@
    } else if views_of(VIDEO_ICON_EXTENSIONS@).contains(ext) {
        "video-x-generic"@
    } else if views_of(PDF_ICON_EXTENSIONS@).contains(ext) {
        "application-pdf"@
    } else if views_of(DOCUMENT_ICON_EXTENSIONS@).contains(ext) {
        "x-office-document"@
    } else if views_of(SPREADSHEET_ICON_EXTENSIONS@).contains(ext) {
        "x-office-spreadsheet"@
    } else if views_of(PRESENTATION_ICON_EXTENSIONS@).contains(ext) {
        "x-office-presentation"@
    } else if views_of(ARCHIVE_ICON_EXTENSIONS@).contains(ext) {
        "package-x-generic"@
    } else if views_of(EXECUTABLE_ICON_EXTENSIONS@).contains(ext) {
        "application-x-executable"@
    } else if views_of(FONT_ICON_EXTENSIONS@).contains(ext) {
        "font-x-generic"@
    } else {
        "text-x-generic"@
    }
}

/// The icon for a file with this ASCII-lower-cased extension, or for a directory.
pub fn icon_for_extension(is_dir: bool, ext: &[char]) -> (res: &'static str)
    ensures
        res@ == icon_for(is_dir, ext@),
{
    if is_dir {
        "folder"
    } else if in_list(ext, PYTHON_ICON_EXTENSIONS.as_slice()) {
        "text-x-python"
    } else if in_list(ext, MARKDOWN_ICON_EXTENSIONS.as_slice()) {
        "text-markdown"
    } else if in_list(ext, SCRIPT_ICON_EXTENSIONS.as_slice()) {
        "text-x-script"
    } else if in_list(ext, HTML_ICON_EXTENSIONS.as_slice()) {
        "text-html"
    } else if in_list(ext, IMAGE_ICON_EXTENSIONS.as_slice()) {
        "image-x-generic"
    } else if in_list(ext, AUDIO_ICON_EXTENSIONS.as_slice()) {
        "audio-x-generic"
    } else if in_list(ext, VIDEO_ICON_EXTENSIONS.as_slice()) {
        "video-x-generic"
    } else if in_list(ext, PDF_ICON_EXTENSIONS.as_slice()) {
        "application-pdf"
    } else if in_list(ext, DOCUMENT_ICON_EXTENSIONS.as_slice()) {
        "x-office-document"
    } else if in_list(ext, SPREADSHEET_ICON_EXTENSIONS.as_slice()) {
        "x-office-spreadsheet"
    } else if in_list(ext, PRESENTATION_ICON_EXTENSIONS.as_slice()) {
        "x-office-presentation"
    } else if in_list(ext, ARCHIVE_ICON_EXTENSIONS.as_slice()) {
        "package-x-generic"
    } else if in_list(ext, EXECUTABLE_ICON_EXTENSIONS.as_slice()) {
        "application-x-executable"
    } else if in_list(ext, FONT_ICON_EXTENSIONS.as_slice()) {
        "font-x-generic"
    } else {
        "text-x-generic"
    }
}

/// The icon name for `entry`.
pub fn get_icon_name(entry: &FileEntry) -> (res: &'static str)
    ensures
        res@ == icon_for(entry.is_dir, ascii_lower(extension_or_empty(entry.name@))),
{
    if entry.is_dir {
        return "folder";
    }
    let ext = lower_extension(entry.name.as_str());
    icon_for_extension(false, ext.as_slice())
}

} // verus!
