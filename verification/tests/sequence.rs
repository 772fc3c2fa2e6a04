use ez_core::sequence::{edit_scene, new_scene_name, next_id, scene_beats, scene_ids, scene_name, total_beats};

#[test]
fn sequence_length_counts_every_clip() {
    assert_eq!(total_beats(&[]), 1);
    assert_eq!(total_beats(&[16, 8]), 24);
    assert_eq!(total_beats(&[0, 0, 4]), 6, "an empty clip still lasts a beat");
}

#[test]
fn scene_lookups() {
    let ids = [3u32, 7, 3];
    let beats = [0u32, 12, 5];
    assert_eq!(scene_beats(1, 0, &ids, &beats, 1), 1);
    assert_eq!(scene_beats(1, 32, &ids, &beats, 1), 32);
    assert_eq!(scene_beats(1, 32, &ids, &beats, 3), 1, "the first scene with the id counts");
    assert_eq!(scene_beats(1, 32, &ids, &beats, 7), 12);
    assert_eq!(scene_beats(1, 32, &ids, &beats, 9), 16);
    let names = vec!["a".to_string(), "b".to_string(), "c".to_string()];
    assert_eq!(scene_name(1, "Main", &ids, &names, 1), "Main");
    assert_eq!(scene_name(1, "Main", &ids, &names, 7), "b");
    assert_eq!(scene_name(1, "Main", &ids, &names, 8), "?");
    assert_eq!(scene_ids(1, &ids), vec![1, 3, 7, 3]);
}

#[test]
fn new_scenes() {
    assert_eq!(next_id(0, &[]), 1);
    assert_eq!(next_id(2, &[5, 1]), 6);
    assert_eq!(new_scene_name(false, "Main", 12), "Scene 12");
    assert_eq!(new_scene_name(true, "Main", 12), "Main copy");
}

#[test]
fn switching_scenes_and_back_restores_them() {
    let mut current_id = 1u32;
    let mut current = "scene one".to_string();
    let mut scenes = vec![(2u32, "scene two".to_string()), (3u32, "scene three".to_string())];
    assert!(edit_scene(&mut current_id, &mut current, &mut scenes, 3));
    assert_eq!((current_id, current.as_str()), (3, "scene three"));
    assert_eq!(scenes, vec![(2, "scene two".to_string()), (1, "scene one".to_string())]);
    assert!(edit_scene(&mut current_id, &mut current, &mut scenes, 1));
    assert_eq!((current_id, current.as_str()), (1, "scene one"));
    assert_eq!(scenes, vec![(2, "scene two".to_string()), (3, "scene three".to_string())]);
    assert!(!edit_scene(&mut current_id, &mut current, &mut scenes, 9));
    assert_eq!(current_id, 1);
}
