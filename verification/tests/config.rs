use sysmon::config::{move_in_order, normalize_section_order, Config, Section, DEFAULT_SECTION_ORDER};

#[test]
fn el_default_es_el_del_plasmoid() {
    let c = Config::default();
    assert_eq!(c.update_interval, 2000);
    assert!(c.show_cpu && c.show_ram && c.show_network);
    assert!(c.show_storage && c.show_temps && c.show_gpu);
    assert_eq!(c.section_order, DEFAULT_SECTION_ORDER);
}

#[test]
fn normaliza_el_orden_por_defecto() {
    let order = normalize_section_order(DEFAULT_SECTION_ORDER);
    assert_eq!(
        order,
        vec![
            Section::Temps,
            Section::Network,
            Section::Storage,
            Section::Cpu,
            Section::Gpu,
            Section::Ram,
        ]
    );
}

#[test]
fn descarta_claves_desconocidas() {
    let order = normalize_section_order("cpu,inventada,ram");
    assert_eq!(order[0], Section::Cpu);
    assert_eq!(order[1], Section::Ram);
    assert_eq!(order.len(), 6);
}

#[test]
fn descarta_duplicados() {
    let order = normalize_section_order("cpu,cpu,ram");
    assert_eq!(order.len(), 6);
    assert_eq!(order.iter().filter(|s| **s == Section::Cpu).count(), 1);
}

#[test]
fn agrega_al_final_las_que_faltan() {
    let order = normalize_section_order("ram");
    assert_eq!(order[0], Section::Ram);
    // las otras cinco entran en el orden default
    assert_eq!(order.len(), 6);
    assert!(order.contains(&Section::Gpu));
}

#[test]
fn tolera_espacios_y_cadena_vacia() {
    assert_eq!(normalize_section_order(" cpu , ram ")[0], Section::Cpu);
    assert_eq!(normalize_section_order("").len(), 6);
}

#[test]
fn ordered_sections_filtra_las_apagadas() {
    let mut c = Config::default();
    c.show_temps = false;
    c.show_network = false;
    let visible = c.ordered_sections();
    assert!(!visible.contains(&Section::Temps));
    assert!(!visible.contains(&Section::Network));
    assert_eq!(visible.len(), 4);
    // conserva el orden relativo del default
    assert_eq!(visible[0], Section::Storage);
}

#[test]
fn los_indices_son_los_del_plasmoid() {
    assert_eq!(Section::Cpu.index(), 0);
    assert_eq!(Section::Ram.index(), 1);
    assert_eq!(Section::Network.index(), 2);
    assert_eq!(Section::Storage.index(), 3);
    assert_eq!(Section::Temps.index(), 4);
    assert_eq!(Section::Gpu.index(), 5);
}

#[test]
fn mover_una_seccion_hacia_arriba() {
    let out = move_in_order(DEFAULT_SECTION_ORDER, Section::Storage, -1);
    assert_eq!(out, "temps,storage,network,cpu,gpu,ram");
}

#[test]
fn mover_una_seccion_hacia_abajo() {
    let out = move_in_order(DEFAULT_SECTION_ORDER, Section::Temps, 1);
    assert_eq!(out, "network,temps,storage,cpu,gpu,ram");
}

#[test]
fn mover_en_los_bordes_no_hace_nada() {
    assert_eq!(move_in_order(DEFAULT_SECTION_ORDER, Section::Temps, -1), DEFAULT_SECTION_ORDER);
    assert_eq!(move_in_order(DEFAULT_SECTION_ORDER, Section::Ram, 1), DEFAULT_SECTION_ORDER);
}

#[test]
fn mover_normaliza_un_orden_roto() {
    // Claves desconocidas y repetidas se descartan antes de mover.
    assert_eq!(move_in_order("ram,xx,ram", Section::Cpu, -10), "ram,temps,network,storage,cpu,gpu");
    assert_eq!(move_in_order("gpu", Section::Gpu, 5), "temps,network,storage,cpu,ram,gpu");
}

#[test]
fn claves_y_rotulos() {
    assert_eq!(Section::Network.key(), "network");
    assert_eq!(Section::Temps.label(), "Temperaturas");
    assert_eq!(Section::all()[5], Section::Gpu);
}

#[test]
fn cada_clave_lee_su_seccion_y_nada_mas() {
    for s in Section::all() {
        assert_eq!(normalize_section_order(s.key())[0], s);
    }
    // Case and surrounding text matter: "CPU" and "cpus" name no section.
    assert_eq!(normalize_section_order("CPU,cpus"), normalize_section_order(""));
}
