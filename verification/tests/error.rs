use bg3_translate_core::error::AppError;

#[test]
fn error_messages_are_localized_and_prefixed() {
    assert_eq!(AppError::Pak("坏文件".into()).message(), "PAK 处理错误: 坏文件");
    assert_eq!(AppError::Config("缺 key".into()).message(), "配置错误: 缺 key");
    assert_eq!(AppError::Cancelled.message(), "翻译已取消");
    assert_eq!(AppError::Other("随便".into()).message(), "随便");
}

#[test]
fn error_codes_and_cancellation_flag() {
    assert_eq!(AppError::pak("x").code(), "pak");
    assert_eq!(AppError::xml("x").code(), "xml");
    assert_eq!(AppError::llm("x").code(), "llm");
    assert_eq!(AppError::config("x").code(), "config");
    assert_eq!(AppError::other("x").code(), "other");
    assert!(AppError::Cancelled.is_cancelled());
    assert!(!AppError::llm("x").is_cancelled());
}
