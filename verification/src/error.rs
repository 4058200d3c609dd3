//! The library's error type: a category for the front end plus a message
//! shown to the user.

use vstd::prelude::*;

verus! {

/// Every error the library reports.
#[derive(Debug, Clone, PartialEq, Eq)]
pub enum AppError {
    /// File read or write failure (the I/O error's text).
    Io(String),
    Pak(String),
    /// Failure inside the archive library (its error's text).
    PakLib(String),
    /// Failure inside the `.loca` codec (its error's text).
    Loca(String),
    Xml(String),
    /// JSON (de)serialisation failure (the parser's text).
    Json(String),
    Llm(String),
    Config(String),
    Cancelled,
    Other(String),
}

/// The machine-readable category of an error.
pub open spec fn error_code(e: AppError) -> Seq<char> {
    match e {
        AppError::Io(_) => "io"@,
        AppError::Pak(_) => "pak"@,
        AppError::PakLib(_) => "pak"@,
        AppError::Loca(_) => "loca"@,
        AppError::Xml(_) => "xml"@,
        AppError::Json(_) => "json"@,
        AppError::Llm(_) => "llm"@,
        AppError::Config(_) => "config"@,
        AppError::Cancelled => "cancelled"@,
        AppError::Other(_) => "other"@,
    }
}

/// The user-facing message of an error.
pub open spec fn error_message(e: AppError) -> Seq<char> {
    match e {
        AppError::Io(m) => "文件读写失败: "@ + m@,
        AppError::Pak(m) => "PAK 处理错误: "@ + m@,
        AppError::PakLib(m) => "PAK 库错误: "@ + m@,
        AppError::Loca(m) => "LOCA 处理错误: "@ + m@,
        AppError::Xml(m) => "XML 解析错误: "@ + m@,
        AppError::Json(m) => "JSON 处理错误: "@ + m@,
        AppError::Llm(m) => "大模型调用错误: "@ + m@,
        AppError::Config(m) => "配置错误: "@ + m@,
        AppError::Cancelled => "翻译已取消"@,
        AppError::Other(m) => m@,
    }
}

fn prefixed(prefix: &str, m: &String) -> (r: String)
    ensures
        r@ == prefix@ + m@,
{
    let mut r = String::from_str(prefix);
    r.append(m.as_str());
    r
}

impl AppError {
    /// Category for the front end (e.g. a cancellation shows no error dialog).
    pub fn code(&self) -> (r: &'static str)
        ensures
            r@ == error_code(*self),
    {
        match self {
            AppError::Io(_) => "io",
            AppError::Pak(_) => "pak",
            AppError::PakLib(_) => "pak",
            AppError::Loca(_) => "loca",
            AppError::Xml(_) => "xml",
            AppError::Json(_) => "json",
            AppError::Llm(_) => "llm",
            AppError::Config(_) => "config",
            AppError::Cancelled => "cancelled",
            AppError::Other(_) => "other",
        }
    }

    /// Whether the error only means that the user cancelled.
    pub fn is_cancelled(&self) -> (r: bool)
        ensures
            r == (*self is Cancelled),
    {
        match self {
            AppError::Cancelled => true,
            _ => false,
        }
    }

    /// The message shown to the user.
    pub fn message(&self) -> (r: String)
        ensures
            r@ == error_message(*self),
    {
        match self {
            AppError::Io(m) => prefixed("文件读写失败: ", m),
            AppError::Pak(m) => prefixed("PAK 处理错误: ", m),
            AppError::PakLib(m) => prefixed("PAK 库错误: ", m),
            AppError::Loca(m) => prefixed("LOCA 处理错误: ", m),
            AppError::Xml(m) => prefixed("XML 解析错误: ", m),
            AppError::Json(m) => prefixed("JSON 处理错误: ", m),
            AppError::Llm(m) => prefixed("大模型调用错误: ", m),
            AppError::Config(m) => prefixed("配置错误: ", m),
            AppError::Cancelled => String::from_str("翻译已取消"),
            AppError::Other(m) => m.clone(),
        }
    }

    pub fn pak(message: &str) -> (r: AppError)
        ensures
            r matches AppError::Pak(m) && m@ == message@,
    {
        AppError::Pak(String::from_str(message))
    }

    pub fn xml(message: &str) -> (r: AppError)
        ensures
            r matches AppError::Xml(m) && m@ == message@,
    {
        AppError::Xml(String::from_str(message))
    }

    pub fn llm(message: &str) -> (r: AppError)
        ensures
            r matches AppError::Llm(m) && m@ == message@,
    {
        AppError::Llm(String::from_str(message))
    }

    pub fn config(message: &str) -> (r: AppError)
        ensures
            r matches AppError::Config(m) && m@ == message@,
    {
        AppError::Config(String::from_str(message))
    }

    pub fn other(message: &str) -> (r: AppError)
        ensures
            r matches AppError::Other(m) && m@ == message@,
    {
        AppError::Other(String::from_str(message))
    }
}

} // verus!
