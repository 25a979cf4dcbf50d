use dms_email_client::model::{
    ensure_model, model_dir, model_files, ModelFetch, ModelManager, IDLE_NANOS,
};

#[test]
fn the_model_has_its_place_and_files() {
    assert_eq!(
        model_dir(&Some("/home/me/.local/share".to_string())),
        "/home/me/.local/share/dms-email-client/models/nllb-200-distilled-600M"
    );
    assert_eq!(model_dir(&None), "./dms-email-client/models/nllb-200-distilled-600M");
    assert_eq!(
        model_files(),
        vec![
            "config.json",
            "model.bin",
            "sentencepiece.bpe.model",
            "shared_vocabulary.txt",
            "special_tokens_map.json",
            "tokenizer_config.json",
            "tokenizer.json",
        ]
    );
}

#[test]
fn a_complete_model_is_not_fetched() {
    assert_eq!(ModelFetch::new(&[Some(1); 7]).next(), None);
}

#[test]
fn a_usable_model_has_all_its_files() {
    assert_eq!(ensure_model(&[Some(1); 7]), Ok(()));
    let mut sizes = [Some(1); 7];
    sizes[4] = Some(0);
    assert_eq!(
        ensure_model(&sizes),
        Err("模型文件不完整: special_tokens_map.json".to_string())
    );
    sizes[1] = None;
    assert_eq!(ensure_model(&sizes), Err("模型文件不完整: model.bin".to_string()));
}

#[test]
fn missing_and_empty_files_are_fetched() {
    let mut sizes = [Some(1); 7];
    sizes[1] = None;
    sizes[6] = Some(0);
    let mut fetch = ModelFetch::new(&sizes);
    assert_eq!(fetch.next(), Some("model.bin".to_string()));
    assert_eq!(fetch.step(Ok(())), Ok(()));
    assert_eq!(fetch.next(), Some("tokenizer.json".to_string()));
    assert_eq!(fetch.step(Ok(())), Ok(()));
    assert_eq!(fetch.next(), None);
}

#[test]
fn a_fetch_is_tried_three_times() {
    let mut sizes = [Some(1); 7];
    sizes[0] = None;
    sizes[1] = None;
    let mut fetch = ModelFetch::new(&sizes);
    for _ in 0..2 {
        assert_eq!(fetch.step(Err("reset".to_string())), Ok(()));
        assert_eq!(fetch.next(), Some("config.json".to_string()));
    }
    assert_eq!(fetch.step(Ok(())), Ok(()));
    assert_eq!(fetch.next(), Some("model.bin".to_string()));
    for _ in 0..2 {
        assert_eq!(fetch.step(Err("reset".to_string())), Ok(()));
    }
    assert_eq!(
        fetch.step(Err("reset".to_string())),
        Err("下载 model.bin 失败: reset".to_string())
    );
}

#[test]
fn a_model_is_loaded_when_it_is_needed() {
    let mut m: ModelManager<String> = ModelManager::new(10);
    let failed = m.with_translator(|| Err("no disk".to_string()), || 11, |t| t.len());
    assert_eq!(failed, Err("no disk".to_string()));
    let loaded = m.with_translator(|| Ok("model".to_string()), || 12, |t| t.len());
    assert_eq!(loaded, Ok(5));
    let again = m.with_translator(|| panic!("it is loaded"), || 13, |t| t.clone());
    assert_eq!(again, Ok("model".to_string()));
}

#[test]
fn an_idle_model_is_unloaded() {
    let mut m: ModelManager<u8> = ModelManager::new(0);
    assert!(!m.unload_idle(9999));
    assert_eq!(m.with_translator(|| Ok(1), || 100, |t| *t), Ok(1));
    assert!(!m.unload_idle(50));
    assert!(!m.unload_idle(100 + IDLE_NANOS));
    assert!(m.unload_idle(101 + IDLE_NANOS));
    assert!(!m.unload_idle(101 + IDLE_NANOS));
    assert_eq!(m.with_translator(|| Ok(2), || 500, |t| *t), Ok(2));
}
