use sysmon::applet::{interval_step, Message, Panel, PopupTask};
use sysmon::config::{Config, Section};

/// A panel with the popup already open on `selected`.
fn con_popup_abierto(selected: Section, showing_settings: bool) -> Panel {
    let mut p = Panel::new(Config::default());
    p.popup_open = true;
    p.selected = selected;
    p.showing_settings = showing_settings;
    p
}

/// A panel with the popup closed.
fn con_popup_cerrado(selected: Section, showing_settings: bool) -> Panel {
    let mut p = Panel::new(Config::default());
    p.selected = selected;
    p.showing_settings = showing_settings;
    p
}

#[test]
fn cerrar_la_misma_seccion_apaga_showing_settings() {
    let mut app = con_popup_abierto(Section::Cpu, true);
    let e = app.update(Message::OpenSection(Section::Cpu));
    assert!(!app.popup_open);
    assert!(!app.showing_settings);
    assert_eq!(e.popup, PopupTask::Destroy);
}

#[test]
fn popup_closed_con_id_que_coincide_apaga_showing_settings() {
    let mut app = con_popup_abierto(Section::Cpu, true);
    let _ = app.update(Message::PopupClosed(true));
    assert!(!app.popup_open);
    assert!(!app.showing_settings);
}

#[test]
fn popup_closed_con_id_que_no_coincide_no_toca_nada() {
    let mut app = con_popup_abierto(Section::Cpu, true);
    let _ = app.update(Message::PopupClosed(false));
    assert!(app.popup_open);
    assert!(app.showing_settings);
}

#[test]
fn cambiar_de_seccion_con_popup_abierto_no_lo_destruye() {
    let mut app = con_popup_abierto(Section::Cpu, false);
    let e = app.update(Message::OpenSection(Section::Ram));
    assert!(app.popup_open);
    assert_eq!(e.popup, PopupTask::Keep);
    assert_eq!(app.selected, Section::Ram);
}

#[test]
fn cambiar_de_seccion_con_settings_abierto_lo_saca_de_ajustes() {
    let mut app = con_popup_abierto(Section::Cpu, true);
    let e = app.update(Message::OpenSection(Section::Ram));
    assert!(app.popup_open);
    assert_eq!(e.popup, PopupTask::Keep);
    assert_eq!(app.selected, Section::Ram);
    assert!(!app.showing_settings);
}

#[test]
fn abrir_con_el_popup_cerrado_no_deja_settings_prendido() {
    let mut app = con_popup_cerrado(Section::Cpu, true);
    let e = app.update(Message::OpenSection(Section::Ram));
    assert_eq!(e.popup, PopupTask::Open);
    assert_eq!(app.selected, Section::Ram);
    assert!(!app.showing_settings);
}

#[test]
fn misma_seccion_con_settings_abierto_cierra_en_vez_de_volver_al_detalle() {
    let mut app = con_popup_abierto(Section::Cpu, true);
    let _ = app.update(Message::OpenSection(Section::Cpu));
    assert!(!app.popup_open);
    assert!(!app.showing_settings);
}

#[test]
fn visible_detail_sin_popup_es_none() {
    let app = con_popup_cerrado(Section::Cpu, false);
    assert_eq!(app.visible_detail(), None);
}

#[test]
fn visible_detail_con_ajustes_es_none() {
    let app = con_popup_abierto(Section::Ram, true);
    assert_eq!(app.visible_detail(), None);
}

#[test]
fn visible_detail_con_popup_es_la_seccion_elegida() {
    let app = con_popup_abierto(Section::Ram, false);
    assert_eq!(app.visible_detail(), Some(Section::Ram));
}

#[test]
fn dos_clicks_abren_y_cierran() {
    let mut app = con_popup_cerrado(Section::Cpu, false);
    assert_eq!(app.update(Message::OpenSection(Section::Gpu)).popup, PopupTask::Open);
    let e = app.update(Message::PopupOpened);
    assert_eq!(e.refresh_expensive, Some(Section::Gpu));
    assert_eq!(app.update(Message::OpenSection(Section::Gpu)).popup, PopupTask::Destroy);
    assert!(!app.popup_open);
}

#[test]
fn apagar_la_seccion_abierta_cae_a_la_primera_visible() {
    let mut app = con_popup_abierto(Section::Temps, false);
    let e = app.update(Message::ToggleSection(Section::Temps, false));
    assert!(e.save_config);
    assert!(!app.config.show_temps);
    // orden default: temps,network,storage,...
    assert_eq!(app.selected, Section::Network);
    assert_eq!(e.refresh_expensive, Some(Section::Network));
}

#[test]
fn sin_secciones_visibles_conserva_la_elegida() {
    let mut app = con_popup_abierto(Section::Cpu, false);
    for s in Section::all() {
        let _ = app.update(Message::ToggleSection(s, false));
    }
    assert_eq!(app.selected, Section::Gpu);
}

#[test]
fn el_intervalo_queda_en_el_rango_del_spinner() {
    let mut app = con_popup_cerrado(Section::Cpu, false);
    let _ = app.update(Message::SetInterval(100));
    assert_eq!(app.config.update_interval, 500);
    assert_eq!(app.tick_millis(), 500);
    let _ = app.update(Message::SetInterval(60_000));
    assert_eq!(app.config.update_interval, 10_000);
    let _ = app.update(Message::SetInterval(2500));
    assert_eq!(app.config.update_interval, 2500);
}

#[test]
fn mover_guarda_el_orden_nuevo() {
    let mut app = con_popup_cerrado(Section::Cpu, false);
    let e = app.update(Message::MoveSection(Section::Storage, -1));
    assert!(e.save_config);
    assert_eq!(app.config.section_order, "temps,storage,network,cpu,gpu,ram");
}

#[test]
fn el_tick_muestrea_con_el_detalle_a_la_vista() {
    let mut app = con_popup_abierto(Section::Storage, false);
    let e = app.update(Message::Tick);
    assert_eq!(e.sample, Some(Some(Section::Storage)));
    let mut cerrado = con_popup_cerrado(Section::Storage, false);
    assert_eq!(cerrado.update(Message::Tick).sample, Some(None));
}

#[test]
fn los_botones_del_intervalo_van_de_a_medio_segundo() {
    assert_eq!(interval_step(2000, true), 2500);
    assert_eq!(interval_step(2000, false), 1500);
    assert_eq!(interval_step(9800, true), 10_000);
    assert_eq!(interval_step(700, false), 500);
    assert_eq!(interval_step(100, false), 500);
    assert_eq!(interval_step(20_000, true), 10_000);
}
